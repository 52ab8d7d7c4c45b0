use vstd::prelude::*;
use crate::bits::{BitboardTrait, popcount, count_bits, lemma_count_bits_bound, get_rank, get_file};
use crate::board::Board;
use crate::eval::Evaluation;
use crate::piece::{Piece, Color, PieceTrait, ColorTrait, WHITE, BLACK, PAWN, KNIGHT, BISHOP, ROOK, QUEEN, KING,
    PIECES, PIECES_WITHOUT_PAWN, PIECES_WITHOUT_PAWN_KING, valid_piece, piece_kind, piece_color, WHITE_KING, BLACK_KING, WHITE_KNIGHT, BLACK_KNIGHT,
    WHITE_BISHOP, BLACK_BISHOP};
use crate::tables::{lowest_sq, lemma_lowest_is};
use crate::castling::{clr_side_mask, CastlingRightsTrait};
use crate::attacks::{has_bishop_pair, WHITE_SQUARES, BLACK_SQUARES, get_pawn_att_mask, get_knight_mask, get_bishop_mask, get_rook_mask,
    get_queen_mask, get_king_mask, pawn_att_target, knight_target, bishop_target, rook_target, queen_target, king_target,
    all_forward_target, all_left_target, all_right_target, get_all_pawn_forward_mask, get_all_pawn_left_att_mask, get_all_pawn_right_att_mask,
    pawn_dir, forward_span_target, forward_lr_target, pawn_forward_span, forward_spans_lr, lemma_at};
use crate::bits::{inside, has_bit, row_of, col_of, lemma_bit_ops, lemma_bits_ext, lemma_bit_consts, lemma_nonzero_has_bit, lemma_empty_is_zero};

verus! {

/// Non pawn material of both sides from which on the game is in its middle phase.
pub const MG_LIMIT: isize = 15258;

/// Non pawn material of both sides up to which the game is in its end phase.
pub const EG_LIMIT: isize = 3915;

/// The bonus of the side to move.
pub const TEMPO_WT: isize = 28;

/// The bound on the size of a score the evaluation sums into.
pub const SCORE_LIMIT: isize = 4_000_000;

/// A reference evaluation of a position, term by term.
pub struct SFEval<'a> {
    pub fen: &'a str,
    pub phase: isize,
    pub eval: isize,
    pub material: isize,
    pub psqt: isize,
    pub imbalance: isize,
    pub pawns: isize,
    pub piece: isize,
    pub mobility: isize,
    pub threats: isize,
    pub passed_pawn: isize,
    pub space: isize,
    pub king: isize,
    pub winnable: isize,
    pub tempo: isize,
}

/// Integer division rounding toward zero, as the machine divides.
pub open spec fn trunc_div(a: int, d: int) -> int {
    if a >= 0 {
        a / d
    } else {
        -((-a) / d)
    }
}

/// Middle and end game value of a piece kind, by its table index (kind / 2 - 1): pawn,
/// knight, king, bishop, rook, queen.
pub open spec fn material_value(i: int) -> (int, int) {
    if i == 0 {
        (124, 206)
    } else if i == 1 {
        (781, 854)
    } else if i == 2 {
        (0, 0)
    } else if i == 3 {
        (825, 915)
    } else if i == 4 {
        (1276, 1380)
    } else {
        (2538, 2682)
    }
}

/// The number of pieces `p` on the board.
pub open spec fn piece_count(bb: [u64; 14], p: int) -> int {
    popcount(bb[p]) as int
}

/// The piece kinds, in the order the material is summed.
pub open spec fn kinds_seq() -> Seq<u8> {
    seq![PAWN, KNIGHT, BISHOP, ROOK, QUEEN, KING]
}

/// The middle and end game material of the first `n` kinds of `kinds` of side `clr`.
pub open spec fn material_upto(bb: [u64; 14], clr: int, kinds: Seq<u8>, n: int) -> (int, int)
    decreases n,
{
    if n <= 0 {
        (0, 0)
    } else {
        let prev = material_upto(bb, clr, kinds, n - 1);
        let k = kinds[n - 1] as int;
        let v = material_value(k / 2 - 1);
        let c = piece_count(bb, k + clr);
        (prev.0 + v.0 * c, prev.1 + v.1 * c)
    }
}

/// The middle and end game material of side `clr`.
pub open spec fn material_of(b: &Board, clr: int) -> (int, int) {
    material_upto(b.bitboard, clr, kinds_seq(), 6)
}

/// The middle game material of side `clr` without its pawns.
pub open spec fn non_pawn_material_of(b: &Board, clr: int) -> int {
    material_upto(b.bitboard, clr, kinds_seq().drop_first(), 5).0
}

/// The phase of the game, 128 in the middle game down to 0 in the end game, from the non pawn
/// material of both sides.
pub open spec fn phase_of(npm: int) -> int {
    let clamped = if npm > MG_LIMIT {
        MG_LIMIT as int
    } else if npm < EG_LIMIT {
        EG_LIMIT as int
    } else {
        npm
    };
    ((clamped - EG_LIMIT) * 128) / (MG_LIMIT - EG_LIMIT)
}

/// A score within the bound the evaluation sums into.
pub open spec fn score_ok(s: (isize, isize)) -> bool {
    -SCORE_LIMIT <= s.0 <= SCORE_LIMIT && -SCORE_LIMIT <= s.1 <= SCORE_LIMIT
}

/// Only the evaluation state differs between `a` and `b`.
pub open spec fn only_eval_changed(a: &Board, b: &Board) -> bool {
    &&& b.squares == a.squares
    &&& b.bitboard == a.bitboard
    &&& b.state == a.state
    &&& b.moves@ == a.moves@
    &&& b.history@ == a.history@
    &&& b.s_history == a.s_history
    &&& b.s_killers == a.s_killers
    &&& b.pv_moves == a.pv_moves
    &&& b.pv_len == a.pv_len
    &&& b.gen_moves@ == a.gen_moves@
}

/// `b` is `a` with `v` added to the score of side `clr`.
pub open spec fn score_added(a: &Board, b: &Board, clr: int, v: (int, int)) -> bool {
    &&& only_eval_changed(a, b)
    &&& b.eval.score[clr].0 == a.eval.score[clr].0 + v.0
    &&& b.eval.score[clr].1 == a.eval.score[clr].1 + v.1
    &&& b.eval.score[1 - clr] == a.eval.score[1 - clr]
    &&& b.eval == (Evaluation { score: b.eval.score, ..a.eval })
}

/// The number of pieces is at most the number of squares.
pub proof fn lemma_piece_count(bb: [u64; 14], p: int)
    ensures
        0 <= piece_count(bb, p) <= 64,
{
    lemma_count_bits_bound(bb[p], 64);
}

/// Each step of the material sum stays within the largest piece values times the board size.
proof fn lemma_material_bound(bb: [u64; 14], clr: int, kinds: Seq<u8>, n: int)
    requires
        0 <= n <= kinds.len(),
        forall|i: int| 0 <= i < kinds.len() ==> 2 <= #[trigger] kinds[i] <= 12,
    ensures
        0 <= material_upto(bb, clr, kinds, n).0 <= n * 64 * 2538,
        0 <= material_upto(bb, clr, kinds, n).1 <= n * 64 * 2682,
    decreases n,
{
    if n > 0 {
        lemma_material_bound(bb, clr, kinds, n - 1);
        let k = kinds[n - 1] as int;
        let c = piece_count(bb, k + clr);
        lemma_piece_count(bb, k + clr);
        let v = material_value(k / 2 - 1);
        assert(0 <= v.0 * c <= 64 * 2538) by (nonlinear_arith)
            requires
                0 <= c <= 64,
                0 <= v.0 <= 2538;
        assert(0 <= v.1 * c <= 64 * 2682) by (nonlinear_arith)
            requires
                0 <= c <= 64,
                0 <= v.1 <= 2682;
    }
}

pub trait CommonEvalTrait {
    /// Both weights of the phase of the game lie between 0 and 128.
    spec fn phase_in_range(&self) -> bool;

    /// Adding `value` to the score of `color` stays within the machine's integers.
    spec fn score_room(&self, color: Color, value: (isize, isize)) -> bool;

    /// Both scores lie within the bound the evaluation sums into.
    spec fn scores_bounded(&self) -> bool;

    /// The side to move is a color.
    spec fn side_ok(&self) -> bool;

    /// The blend of a middle and an end game value by the phase of the game.
    fn tapered(&mut self, value: (isize, isize)) -> isize
        requires
            old(self).phase_in_range(),
            -2 * SCORE_LIMIT <= value.0 <= 2 * SCORE_LIMIT,
            -2 * SCORE_LIMIT <= value.1 <= 2 * SCORE_LIMIT,
    ;

    /// Neither side has the pieces to give mate: at most three pieces, all kings, knights or
    /// bishops.
    fn insufficient_material(&self) -> bool
        requires
            self.side_ok(),
    ;

    /// The square in front of `sq` for a pawn of `clr`.
    fn front_sq(&mut self, sq: usize, clr: Color) -> usize
        requires
            clr < 2,
            sq < 64,
    ;

    /// The square behind `sq` for a pawn of `clr`.
    fn back_sq(&mut self, sq: usize, clr: Color) -> usize
        requires
            clr < 2,
            sq < 64,
    ;

    /// Adds `value` to the score of `color`; the square and the piece only name the source.
    fn sum(&mut self, color: Color, square: Option<usize>, piece: Option<Piece>, value: (isize, isize))
        requires
            color < 2,
            old(self).score_room(color, value),
    ;

    /// Adds `value` to the entry of `color` in `score`.
    fn sum_into_arr(
        &mut self,
        color: Color,
        square: Option<usize>,
        piece: Option<Piece>,
        value: (isize, isize),
        score: &mut [(isize, isize); 2],
    )
        requires
            color < 2,
            isize::MIN <= old(score)[color as int].0 + value.0 <= isize::MAX,
            isize::MIN <= old(score)[color as int].1 + value.1 <= isize::MAX,
    ;

    /// The score of white minus that of black, blended by the phase of the game.
    fn calculate_score(&mut self) -> isize
        requires
            old(self).phase_in_range(),
            old(self).scores_bounded(),
    ;

    /// The distance, in king steps, from the king of `clr` to `sq`.
    fn king_dist(&mut self, clr: Color, sq: usize) -> usize
        requires
            clr < 2,
    ;

    /// The squares that `piece` on `sq` attacks over the pieces on the board.
    fn get_mask(&mut self, piece: Piece, sq: usize) -> u64
        requires
            valid_piece(piece),
            sq < 64,
    ;

    /// The squares that `piece` on `sq` attacks, seeing through the sliders that move along
    /// with it: a bishop through the queens, a rook through the queens and its own rooks.
    fn x_ray_mask(&mut self, piece: Piece, sq: usize) -> u64
        requires
            valid_piece(piece),
            sq < 64,
    ;
}

/// `piece` on `sq` attacks `t` when the pieces of `occ` stand on the board.
pub open spec fn piece_attack(piece: u8, sq: int, occ: u64, t: int) -> bool {
    let k = piece_kind(piece);
    if k == PAWN {
        pawn_att_target(piece_color(piece), sq, t)
    } else if k == KNIGHT {
        knight_target(row_of(sq), col_of(sq), t)
    } else if k == BISHOP {
        bishop_target(sq, occ, t)
    } else if k == ROOK {
        rook_target(sq, occ, t)
    } else if k == QUEEN {
        queen_target(sq, occ, t)
    } else {
        king_target(row_of(sq), col_of(sq), t)
    }
}

/// The board `bb` without the pieces a slider of side `c` and kind `kind` looks through: the
/// queens for a bishop; the queens and the rooks of its side, and the other side's queens,
/// for a rook.
pub open spec fn slider_occ(bb: [u64; 14], kind: u8, c: int) -> u64 {
    let own = bb[c];
    let enemy = bb[1 - c];
    if kind == BISHOP {
        (own & !bb[QUEEN + c]) | (enemy & !bb[QUEEN + 1 - c])
    } else if kind == ROOK {
        (own & !(bb[QUEEN + c] | bb[ROOK + c])) | (enemy & !bb[QUEEN + 1 - c])
    } else {
        own | enemy
    }
}

/// The board `bb` without the pieces the slider `piece` looks through.
pub open spec fn x_ray_occ(bb: [u64; 14], piece: u8) -> u64 {
    slider_occ(bb, piece_kind(piece), piece_color(piece) as int)
}

impl CommonEvalTrait for Board {
    open spec fn phase_in_range(&self) -> bool {
        0 <= self.eval.phase.0 <= 128 && 0 <= self.eval.phase.1 <= 128
    }

    open spec fn score_room(&self, color: Color, value: (isize, isize)) -> bool {
        &&& isize::MIN <= self.eval.score[color as int].0 + value.0 <= isize::MAX
        &&& isize::MIN <= self.eval.score[color as int].1 + value.1 <= isize::MAX
    }

    open spec fn scores_bounded(&self) -> bool {
        score_ok(self.eval.score[0]) && score_ok(self.eval.score[1])
    }

    open spec fn side_ok(&self) -> bool {
        self.state.color < 2
    }

    fn tapered(&mut self, value: (isize, isize)) -> (r: isize)
        ensures
            r == trunc_div(old(self).eval.phase.0 * value.0 + old(self).eval.phase.1 * value.1, 128),
            *final(self) == *old(self),
    {
        let p = self.eval.phase;
        assert(-256 * SCORE_LIMIT <= p.0 * value.0 <= 256 * SCORE_LIMIT) by (nonlinear_arith)
            requires
                0 <= p.0 <= 128,
                -2 * SCORE_LIMIT <= value.0 <= 2 * SCORE_LIMIT;
        assert(-256 * SCORE_LIMIT <= p.1 * value.1 <= 256 * SCORE_LIMIT) by (nonlinear_arith)
            requires
                0 <= p.1 <= 128,
                -2 * SCORE_LIMIT <= value.1 <= 2 * SCORE_LIMIT;
        (p.0 * value.0 + p.1 * value.1) / 128
    }

    fn insufficient_material(&self) -> (r: bool)
        ensures
            r == ({
                let occ = self.bitboard[0] | self.bitboard[1];
                &&& popcount(occ) < 4
                &&& (self.bitboard[6] | self.bitboard[7]) | (self.bitboard[4] | self.bitboard[5]) | (self.bitboard[8]
                    | self.bitboard[9]) == occ
            }),
    {
        let (own, enemy) = self.both_occ_bb(self.color());
        proof {
            assert(own | enemy == self.bitboard[0] | self.bitboard[1]) by {
                let (a, b) = (self.bitboard[0], self.bitboard[1]);
                assert(a | b == b | a) by (bit_vector);
            }
        }
        if (own | enemy).count() < 4 {
            let kings = self.bb(WHITE_KING) | self.bb(BLACK_KING);
            let knights = self.bb(WHITE_KNIGHT) | self.bb(BLACK_KNIGHT);
            let bishops = self.bb(WHITE_BISHOP) | self.bb(BLACK_BISHOP);
            if (kings | knights | bishops) == (own | enemy) {
                return true;
            }
        }
        false
    }

    fn front_sq(&mut self, sq: usize, clr: Color) -> (r: usize)
        ensures
            r == (sq as isize + if clr == WHITE { 8isize } else { -8isize }) as usize,
            *final(self) == *old(self),
    {
        (sq as isize + 8 * clr.sign()) as usize
    }

    fn back_sq(&mut self, sq: usize, clr: Color) -> (r: usize)
        ensures
            r == (sq as isize - if clr == WHITE { 8isize } else { -8isize }) as usize,
            *final(self) == *old(self),
    {
        (sq as isize - 8 * clr.sign()) as usize
    }

    fn sum(&mut self, color: Color, square: Option<usize>, piece: Option<Piece>, value: (isize, isize))
        ensures
            score_added(&*old(self), &*final(self), color as int, (value.0 as int, value.1 as int)),
    {
        let c = color as usize;
        self.eval.score[c].0 = self.eval.score[c].0 + value.0;
        self.eval.score[c].1 = self.eval.score[c].1 + value.1;
    }

    fn sum_into_arr(
        &mut self,
        color: Color,
        square: Option<usize>,
        piece: Option<Piece>,
        value: (isize, isize),
        score: &mut [(isize, isize); 2],
    )
        ensures
            final(score)[color as int].0 == old(score)[color as int].0 + value.0,
            final(score)[color as int].1 == old(score)[color as int].1 + value.1,
            final(score)[1 - color] == old(score)[1 - color],
            *final(self) == *old(self),
    {
        let c = color as usize;
        score[c].0 = score[c].0 + value.0;
        score[c].1 = score[c].1 + value.1;
    }

    fn calculate_score(&mut self) -> (r: isize)
        ensures
            r == trunc_div(
                old(self).eval.phase.0 * (old(self).eval.score[0].0 - old(self).eval.score[1].0)
                    + old(self).eval.phase.1 * (old(self).eval.score[0].1 - old(self).eval.score[1].1),
                128,
            ),
            *final(self) == *old(self),
    {
        let mg = self.eval.score[0].0 - self.eval.score[1].0;
        let eg = self.eval.score[0].1 - self.eval.score[1].1;
        self.tapered((mg, eg))
    }

    fn king_dist(&mut self, clr: Color, sq: usize) -> (r: usize)
        ensures
            ({
                let kb = old(self).bitboard[KING + clr];
                let k = if kb == 0 { 64 } else { lowest_sq(kb) };
                let dr = if k / 8 >= sq / 8 { k / 8 - sq / 8 } else { sq / 8 - k / 8 };
                let df = if k % 8 >= sq % 8 { k % 8 - sq % 8 } else { sq % 8 - k % 8 };
                r == if dr >= df { dr } else { df }
            }),
            *final(self) == *old(self),
    {
        let (sq_rank, sq_file) = (get_rank(sq), get_file(sq));
        let k = self.king_sq(clr);
        proof {
            if self.bitboard[KING + clr] != 0 {
                lemma_lowest_is(self.bitboard[KING + clr], k as int);
            }
        }
        let (king_rank, king_file) = (get_rank(k), get_file(k));
        let dr = if king_rank >= sq_rank { king_rank - sq_rank } else { sq_rank - king_rank };
        let df = if king_file >= sq_file { king_file - sq_file } else { sq_file - king_file };
        if dr >= df { dr } else { df }
    }

    fn get_mask(&mut self, piece: Piece, sq: usize) -> (r: u64)
        ensures
            forall|t: u64| t < 64 ==> #[trigger] has_bit(r, t) == piece_attack(
                piece,
                sq as int,
                old(self).bitboard[piece_color(piece) as int] | old(self).bitboard[1 - piece_color(piece)],
                t as int,
            ),
            *final(self) == *old(self),
    {
        let clr = piece.color();
        let (own, enemy) = self.both_occ_bb(clr);
        let kind = piece.kind();
        if kind == PAWN {
            get_pawn_att_mask(sq, own, enemy, clr)
        } else if kind == KNIGHT {
            get_knight_mask(sq, own, enemy, clr)
        } else if kind == BISHOP {
            get_bishop_mask(sq, own, enemy, clr)
        } else if kind == ROOK {
            get_rook_mask(sq, own, enemy, clr)
        } else if kind == QUEEN {
            get_queen_mask(sq, own, enemy, clr)
        } else {
            get_king_mask(sq, own, enemy, clr)
        }
    }

    fn x_ray_mask(&mut self, piece: Piece, sq: usize) -> (r: u64)
        ensures
            forall|t: u64| t < 64 ==> #[trigger] has_bit(r, t) == piece_attack(piece, sq as int, x_ray_occ(old(self).bitboard, piece), t as int),
            *final(self) == *old(self),
    {
        let clr = piece.color();
        let (mut own, mut enemy) = self.both_occ_bb(clr);
        let kind = piece.kind();
        if kind == PAWN {
            get_pawn_att_mask(sq, own, enemy, clr)
        } else if kind == KNIGHT {
            get_knight_mask(sq, own, enemy, clr)
        } else if kind == BISHOP {
            own = own & !self.queen_bb(clr);
            enemy = enemy & !self.queen_bb(clr.opposite());
            get_bishop_mask(sq, own, enemy, clr)
        } else if kind == ROOK {
            own = own & !(self.queen_bb(clr) | self.rook_bb(clr));
            enemy = enemy & !self.queen_bb(clr.opposite());
            get_rook_mask(sq, own, enemy, clr)
        } else if kind == QUEEN {
            get_queen_mask(sq, own, enemy, clr)
        } else {
            get_king_mask(sq, own, enemy, clr)
        }
    }
}

/// The middle and end game value of a piece kind, by its table index.
fn material_value_of(idx: usize) -> (r: (isize, isize))
    requires
        idx < 6,
    ensures
        r.0 == material_value(idx as int).0,
        r.1 == material_value(idx as int).1,
{
    match idx {
        0 => (124, 206),
        1 => (781, 854),
        2 => (0, 0),
        3 => (825, 915),
        4 => (1276, 1380),
        _ => (2538, 2682),
    }
}

pub trait MaterialEvalTrait {
    /// The score of `clr` leaves room for its material.
    spec fn material_room(&self, clr: Color) -> bool;

    /// Adds the material of `clr` to its score.
    fn material_eval(&mut self, clr: Color)
        requires
            clr < 2,
            old(self).material_room(clr),
    ;

    /// The middle game material of `clr` without its pawns.
    fn non_pawn_material_eval(&mut self, clr: Color) -> isize
        requires
            clr < 2,
    ;

    /// The middle and end game value of a piece.
    fn piece_material(&mut self, piece: Piece) -> (isize, isize)
        requires
            valid_piece(piece),
    ;
}

impl MaterialEvalTrait for Board {
    open spec fn material_room(&self, clr: Color) -> bool {
        -SCORE_LIMIT / 2 <= self.eval.score[clr as int].0 <= SCORE_LIMIT / 2
            && -SCORE_LIMIT / 2 <= self.eval.score[clr as int].1 <= SCORE_LIMIT / 2
    }

    fn material_eval(&mut self, clr: Color)
        ensures
            score_added(&*old(self), &*final(self), clr as int, material_of(&*old(self), clr as int)),
    {
        let ghost b0 = *self;
        let mut k: usize = 0;
        while k < 6
            invariant
                k <= 6,
                clr < 2,
                PIECES@ == kinds_seq(),
                b0.material_room(clr),
                score_added(&b0, self, clr as int, material_upto(b0.bitboard, clr as int, kinds_seq(), k as int)),
            decreases 6 - k,
        {
            let piece = PIECES[k] + clr;
            proof {
                lemma_piece_count(b0.bitboard, piece as int);
                lemma_material_bound(b0.bitboard, clr as int, kinds_seq(), k as int);
            }
            let count = self.bb(piece).count() as isize;
            let (mg_sum, eg_sum) = self.piece_material(piece);
            proof {
                assert(0 <= mg_sum * count <= 2538 * 64) by (nonlinear_arith)
                    requires
                        0 <= mg_sum <= 2538,
                        0 <= count <= 64;
                assert(0 <= eg_sum * count <= 2682 * 64) by (nonlinear_arith)
                    requires
                        0 <= eg_sum <= 2682,
                        0 <= count <= 64;
            }
            self.sum(clr, None, Some(piece), (mg_sum * count, eg_sum * count));
            k = k + 1;
        }
    }

    fn non_pawn_material_eval(&mut self, clr: Color) -> (r: isize)
        ensures
            r == non_pawn_material_of(&*old(self), clr as int),
            *final(self) == *old(self),
    {
        let ghost b0 = *self;
        let mut score: isize = 0;
        let mut k: usize = 0;
        proof {
            assert(kinds_seq().drop_first() == PIECES_WITHOUT_PAWN@);
        }
        while k < 5
            invariant
                k <= 5,
                clr < 2,
                *self == b0,
                PIECES_WITHOUT_PAWN@ == kinds_seq().drop_first(),
                score == material_upto(b0.bitboard, clr as int, kinds_seq().drop_first(), k as int).0,
            decreases 5 - k,
        {
            let piece = PIECES_WITHOUT_PAWN[k] + clr;
            proof {
                lemma_piece_count(b0.bitboard, piece as int);
                lemma_material_bound(b0.bitboard, clr as int, kinds_seq().drop_first(), k as int);
            }
            let count = self.bb(piece).count() as isize;
            let (mg, _eg) = self.piece_material(piece);
            proof {
                assert(0 <= mg * count <= 2538 * 64) by (nonlinear_arith)
                    requires
                        0 <= mg <= 2538,
                        0 <= count <= 64;
            }
            score = score + mg * count;
            k = k + 1;
        }
        score
    }

    fn piece_material(&mut self, piece: Piece) -> (r: (isize, isize))
        ensures
            r.0 == material_value(piece_kind(piece) / 2 - 1).0,
            r.1 == material_value(piece_kind(piece) / 2 - 1).1,
            *final(self) == *old(self),
    {
        material_value_of(piece.arr_idx())
    }
}

pub trait InitEvalTrait {
    /// Clears the evaluation state and sets the phase of the game.
    fn init(&mut self);

    /// Sets the phase of the game from the non pawn material of both sides.
    fn determine_phase(&mut self);
}

impl InitEvalTrait for Board {
    fn init(&mut self)
        ensures
            only_eval_changed(&*old(self), &*final(self)),
            (Evaluation { phase: (0, 0), ..final(self).eval }).is_cleared(),
            final(self).eval.material_eval == old(self).eval.material_eval,
            final(self).eval.psqt_eval == old(self).eval.psqt_eval,
            final(self).eval.phase.0 == phase_of(non_pawn_material_of(&*old(self), 0) + non_pawn_material_of(&*old(self), 1)),
            final(self).eval.phase.1 == 128 - final(self).eval.phase.0,
    {
        self.eval.reset();
        self.determine_phase();
    }

    fn determine_phase(&mut self)
        ensures
            only_eval_changed(&*old(self), &*final(self)),
            final(self).eval == (Evaluation { phase: final(self).eval.phase, ..old(self).eval }),
            final(self).eval.phase.0 == phase_of(non_pawn_material_of(&*old(self), 0) + non_pawn_material_of(&*old(self), 1)),
            final(self).eval.phase.1 == 128 - final(self).eval.phase.0,
            0 <= final(self).eval.phase.0 <= 128,
    {
        let w = self.non_pawn_material_eval(WHITE);
        let b = self.non_pawn_material_eval(BLACK);
        proof {
            lemma_material_bound(self.bitboard, 0, kinds_seq().drop_first(), 5);
            lemma_material_bound(self.bitboard, 1, kinds_seq().drop_first(), 5);
        }
        let mut npm = w + b;
        npm = if npm > MG_LIMIT { MG_LIMIT } else if npm < EG_LIMIT { EG_LIMIT } else { npm };
        let phase = ((npm - EG_LIMIT) * 128) / (MG_LIMIT - EG_LIMIT);
        self.eval.phase = (phase, 128 - phase);
    }
}

pub trait TempoEvalTrait: CommonEvalTrait {
    /// Gives the side `clr` the bonus of the move.
    fn tempo(&mut self, clr: Color)
        requires
            clr < 2,
            old(self).score_room(clr, (TEMPO_WT, TEMPO_WT)),
    ;
}

impl TempoEvalTrait for Board {
    fn tempo(&mut self, clr: Color)
        ensures
            score_added(&*old(self), &*final(self), clr as int, (TEMPO_WT as int, TEMPO_WT as int)),
    {
        self.sum(clr, None, None, (TEMPO_WT, TEMPO_WT));
    }
}

/// Bonuses for pairs of own pieces, by piece index: the bishop pair, then pawn, knight,
/// bishop, rook and queen.
pub const QUADRATIC_OURS: [[isize; 6]; 6] = [
    [0, 0, 0, 0, 0, 0],
    [40, 38, 0, 0, 0, 0],
    [32, 255, -62, 0, 0, 0],
    [0, 104, 4, 0, 0, 0],
    [-26, -2, 47, 105, -208, 0],
    [-189, 24, 117, 133, -134, -6],
];

/// Bonuses for an own piece against the other side's pieces, by piece index as above.
pub const QUADRATIC_THEIRS: [[isize; 6]; 6] = [
    [0, 0, 0, 0, 0, 0],
    [36, 0, 0, 0, 0, 0],
    [9, 63, 0, 0, 0, 0],
    [59, 65, 42, 0, 0, 0],
    [46, 39, 24, -24, 0, 0],
    [97, 100, -42, 137, 268, 0],
];

/// The bishops `bb` stand on squares of both colors.
pub open spec fn bishop_pair(bb: u64) -> bool {
    (bb & WHITE_SQUARES) != 0 && (bb & BLACK_SQUARES) != 0
}

/// The counts the imbalance weighs for `clr`: 1 for the bishop pair (0 without it), then the
/// numbers of its pawns, knights, bishops, rooks and queens.
pub open spec fn imbalance_counts(bb: [u64; 14], clr: int) -> Seq<int> {
    seq![
        if bishop_pair(bb[BISHOP + clr]) {
            1int
        } else {
            0int
        },
        piece_count(bb, PAWN + clr),
        piece_count(bb, KNIGHT + clr),
        piece_count(bb, BISHOP + clr),
        piece_count(bb, ROOK + clr),
        piece_count(bb, QUEEN + clr),
    ]
}

/// The first `n` products of the coefficients `row` with the counts `c`, summed.
pub open spec fn dot(row: [isize; 6], c: Seq<int>, n: int) -> int
    decreases n,
{
    if n <= 0 {
        0
    } else {
        dot(row, c, n - 1) + row[n - 1] * c[n - 1]
    }
}

/// The interactions of the own pieces of index 1 to `n - 1` with all pieces.
pub open spec fn imbalance_upto(ours: Seq<int>, theirs: Seq<int>, n: int) -> int
    decreases n,
{
    if n <= 1 {
        0
    } else {
        imbalance_upto(ours, theirs, n - 1) + ours[n - 1] * (dot(QUADRATIC_OURS[n - 1], ours, 6) + dot(
            QUADRATIC_THEIRS[n - 1],
            theirs,
            6,
        ))
    }
}

/// The imbalance bonus of `clr`: the piece interactions and the bishop pair, in sixteenths.
pub open spec fn imbalance_bonus(bb: [u64; 14], clr: int) -> int {
    let ours = imbalance_counts(bb, clr);
    trunc_div(imbalance_upto(ours, imbalance_counts(bb, 1 - clr), 6) + 1438 * ours[0], 16)
}

/// A sum of products of coefficients of at most 268 and counts of at most 64.
proof fn lemma_dot_bound(row: [isize; 6], c: Seq<int>, n: int)
    requires
        0 <= n <= 6,
        c.len() == 6,
        forall|j: int| 0 <= j < 6 ==> -268 <= #[trigger] row[j] <= 268,
        forall|j: int| 0 <= j < 6 ==> 0 <= #[trigger] c[j] <= 64,
    ensures
        -17152 * n <= dot(row, c, n) <= 17152 * n,
    decreases n,
{
    if n > 0 {
        lemma_dot_bound(row, c, n - 1);
        let a = row[n - 1] as int;
        let b = c[n - 1];
        assert(-17152 <= a * b <= 17152) by (nonlinear_arith)
            requires
                -268 <= a <= 268,
                0 <= b <= 64,
        ;
    }
}

/// The coefficients of the imbalance are at most 268 in size.
proof fn lemma_quadratic_bound()
    ensures
        forall|i: int, j: int| 0 <= i < 6 && 0 <= j < 6 ==> -268 <= #[trigger] QUADRATIC_OURS[i][j] <= 268,
        forall|i: int, j: int| 0 <= i < 6 && 0 <= j < 6 ==> -268 <= #[trigger] QUADRATIC_THEIRS[i][j] <= 268,
{
}

/// The interactions summed up to `n` stay within their bound.
proof fn lemma_imbalance_bound(ours: Seq<int>, theirs: Seq<int>, n: int)
    requires
        1 <= n <= 6,
        ours.len() == 6,
        theirs.len() == 6,
        forall|j: int| 0 <= j < 6 ==> 0 <= #[trigger] ours[j] <= 64,
        forall|j: int| 0 <= j < 6 ==> 0 <= #[trigger] theirs[j] <= 64,
    ensures
        -13172736 * (n - 1) <= imbalance_upto(ours, theirs, n) <= 13172736 * (n - 1),
    decreases n,
{
    if n > 1 {
        lemma_imbalance_bound(ours, theirs, n - 1);
        lemma_quadratic_bound();
        lemma_dot_bound(QUADRATIC_OURS[n - 1], ours, 6);
        lemma_dot_bound(QUADRATIC_THEIRS[n - 1], theirs, 6);
        let d = dot(QUADRATIC_OURS[n - 1], ours, 6) + dot(QUADRATIC_THEIRS[n - 1], theirs, 6);
        let o = ours[n - 1];
        assert(-13172736 <= o * d <= 13172736) by (nonlinear_arith)
            requires
                -205824 <= d <= 205824,
                0 <= o <= 64,
        ;
    }
}

pub trait ImbalanceEvalTrait: CommonEvalTrait {
    /// Adds to the score of `clr` the bonus for how its pieces go together and against the
    /// other side's pieces.
    fn imbalance(&mut self, clr: Color)
        requires
            clr < 2,
            old(self).imbalance_room(clr),
    ;

    /// The imbalance bonus of `clr` can be added to its score.
    spec fn imbalance_room(&self, clr: Color) -> bool;
}

impl ImbalanceEvalTrait for Board {
    open spec fn imbalance_room(&self, clr: Color) -> bool {
        let b = imbalance_bonus(self.bitboard, clr as int);
        self.score_room(clr, (b as isize, b as isize))
    }

    fn imbalance(&mut self, clr: Color)
        ensures
            ({
                let b = imbalance_bonus(old(self).bitboard, clr as int);
                score_added(&*old(self), &*final(self), clr as int, (b, b))
            }),
    {
        let ghost bb = self.bitboard;
        let opp = clr.opposite();
        proof {
            lemma_count_bits_bound(bb[PAWN + clr], 64);
            lemma_count_bits_bound(bb[KNIGHT + clr], 64);
            lemma_count_bits_bound(bb[BISHOP + clr], 64);
            lemma_count_bits_bound(bb[ROOK + clr], 64);
            lemma_count_bits_bound(bb[QUEEN + clr], 64);
            lemma_count_bits_bound(bb[PAWN + opp], 64);
            lemma_count_bits_bound(bb[KNIGHT + opp], 64);
            lemma_count_bits_bound(bb[BISHOP + opp], 64);
            lemma_count_bits_bound(bb[ROOK + opp], 64);
            lemma_count_bits_bound(bb[QUEEN + opp], 64);
            lemma_quadratic_bound();
        }
        let ours: [isize; 6] = [
            if has_bishop_pair(self.bishop_bb(clr)) {
                1
            } else {
                0
            },
            self.bitboard[(PAWN + clr) as usize].count() as isize,
            self.bitboard[(KNIGHT + clr) as usize].count() as isize,
            self.bitboard[(BISHOP + clr) as usize].count() as isize,
            self.bitboard[(ROOK + clr) as usize].count() as isize,
            self.bitboard[(QUEEN + clr) as usize].count() as isize,
        ];
        let theirs: [isize; 6] = [
            if has_bishop_pair(self.bishop_bb(opp)) {
                1
            } else {
                0
            },
            self.bitboard[(PAWN + opp) as usize].count() as isize,
            self.bitboard[(KNIGHT + opp) as usize].count() as isize,
            self.bitboard[(BISHOP + opp) as usize].count() as isize,
            self.bitboard[(ROOK + opp) as usize].count() as isize,
            self.bitboard[(QUEEN + opp) as usize].count() as isize,
        ];
        let ghost os = imbalance_counts(bb, clr as int);
        let ghost ts = imbalance_counts(bb, 1 - clr);
        proof {
            assert(opp == 1 - clr);
            assert(ours[0] as int == os[0]);
            assert(ours[1] as int == os[1]);
            assert(ours[2] as int == os[2]);
            assert(ours[3] as int == os[3]);
            assert(ours[4] as int == os[4]);
            assert(ours[5] as int == os[5]);
            assert(theirs[0] as int == ts[0]);
            assert(theirs[1] as int == ts[1]);
            assert(theirs[2] as int == ts[2]);
            assert(theirs[3] as int == ts[3]);
            assert(theirs[4] as int == ts[4]);
            assert(theirs[5] as int == ts[5]);
        }
        let mut bonus: isize = 0;
        let mut pt1: usize = 1;
        while pt1 < 6
            invariant
                1 <= pt1 <= 6,
                os.len() == 6,
                ts.len() == 6,
                forall|j: int| 0 <= j < 6 ==> #[trigger] ours[j] as int == os[j],
                forall|j: int| 0 <= j < 6 ==> #[trigger] theirs[j] as int == ts[j],
                forall|j: int| 0 <= j < 6 ==> 0 <= #[trigger] os[j] <= 64,
                forall|j: int| 0 <= j < 6 ==> 0 <= #[trigger] ts[j] <= 64,
                forall|i: int, j: int| 0 <= i < 6 && 0 <= j < 6 ==> -268 <= #[trigger] QUADRATIC_OURS[i][j] <= 268,
                forall|i: int, j: int| 0 <= i < 6 && 0 <= j < 6 ==> -268 <= #[trigger] QUADRATIC_THEIRS[i][j] <= 268,
                bonus == imbalance_upto(os, ts, pt1 as int),
            decreases 6 - pt1,
        {
            proof {
                lemma_imbalance_bound(os, ts, pt1 as int);
                lemma_imbalance_bound(os, ts, pt1 as int + 1);
            }
            if ours[pt1] != 0 {
                let mut s: isize = 0;
                let mut j: usize = 0;
                while j < 6
                    invariant
                        1 <= pt1 < 6,
                        j <= 6,
                        os.len() == 6,
                        ts.len() == 6,
                        forall|k: int| 0 <= k < 6 ==> #[trigger] ours[k] as int == os[k],
                        forall|k: int| 0 <= k < 6 ==> #[trigger] theirs[k] as int == ts[k],
                        forall|k: int| 0 <= k < 6 ==> 0 <= #[trigger] os[k] <= 64,
                        forall|k: int| 0 <= k < 6 ==> 0 <= #[trigger] ts[k] <= 64,
                        forall|i: int, k: int| 0 <= i < 6 && 0 <= k < 6 ==> -268 <= #[trigger] QUADRATIC_OURS[i][k] <= 268,
                        forall|i: int, k: int| 0 <= i < 6 && 0 <= k < 6 ==> -268 <= #[trigger] QUADRATIC_THEIRS[i][k] <= 268,
                        s == dot(QUADRATIC_OURS[pt1 as int], os, j as int) + dot(QUADRATIC_THEIRS[pt1 as int], ts, j as int),
                    decreases 6 - j,
                {
                    proof {
                        lemma_dot_bound(QUADRATIC_OURS[pt1 as int], os, j as int);
                        lemma_dot_bound(QUADRATIC_THEIRS[pt1 as int], ts, j as int);
                        let q1 = QUADRATIC_OURS[pt1 as int][j as int] as int;
                        let q2 = QUADRATIC_THEIRS[pt1 as int][j as int] as int;
                        let c1 = os[j as int];
                        let c2 = ts[j as int];
                        assert(-17152 <= q1 * c1 <= 17152 && -17152 <= q2 * c2 <= 17152) by (nonlinear_arith)
                            requires
                                -268 <= q1 <= 268,
                                -268 <= q2 <= 268,
                                0 <= c1 <= 64,
                                0 <= c2 <= 64,
                        ;
                    }
                    s = s + QUADRATIC_OURS[pt1][j] * ours[j] + QUADRATIC_THEIRS[pt1][j] * theirs[j];
                    j = j + 1;
                }
                proof {
                    lemma_dot_bound(QUADRATIC_OURS[pt1 as int], os, 6);
                    lemma_dot_bound(QUADRATIC_THEIRS[pt1 as int], ts, 6);
                    let o = os[pt1 as int];
                    assert(-13172736 <= o * s <= 13172736) by (nonlinear_arith)
                        requires
                            -205824 <= s <= 205824,
                            0 <= o <= 64,
                    ;
                }
                bonus = bonus + ours[pt1] * s;
            } else {
                proof {
                    let d = dot(QUADRATIC_OURS[pt1 as int], os, 6) + dot(QUADRATIC_THEIRS[pt1 as int], ts, 6);
                    assert(os[pt1 as int] * d == 0) by (nonlinear_arith)
                        requires
                            os[pt1 as int] == 0,
                    ;
                }
            }
            pt1 = pt1 + 1;
        }
        proof {
            lemma_imbalance_bound(os, ts, 6);
        }
        bonus = bonus + 1438 * ours[0];
        bonus = bonus / 16;
        self.sum(clr, None, None, (bonus, bonus));
    }
}

/// Mobility bonus of a knight, by its number of safe squares.
pub const KNIGHT_MOBILITY: [(isize, isize); 9] = [(-62, -81), (-53, -56), (-12, -31), (-4, -16), (3, 5), (13, 11), (22, 17), (28, 20), (33, 25)];

/// Mobility bonus of a bishop, by its number of safe squares.
pub const BISHOP_MOBILITY: [(isize, isize); 14] = [
    (-48, -59), (-20, -23), (16, -3), (26, 13), (38, 24), (51, 42), (55, 54),
    (63, 57), (63, 65), (68, 73), (81, 78), (81, 86), (91, 88), (98, 97),
];

/// Mobility bonus of a rook, by its number of safe squares.
pub const ROOK_MOBILITY: [(isize, isize); 15] = [
    (-60, -78), (-20, -17), (2, 23), (3, 39), (3, 70), (11, 99), (22, 103), (31, 121),
    (40, 134), (40, 139), (41, 158), (48, 164), (57, 168), (57, 169), (62, 172),
];

/// Mobility bonus of a queen, by its number of safe squares.
pub const QUEEN_MOBILITY: [(isize, isize); 28] = [
    (-30, -48), (-12, -30), (-8, -7), (-9, 19), (20, 40), (23, 55), (23, 59),
    (35, 75), (38, 78), (53, 96), (64, 96), (65, 100), (65, 121), (66, 127),
    (67, 131), (67, 133), (72, 136), (72, 141), (77, 147), (79, 150), (93, 151),
    (108, 168), (108, 168), (108, 171), (110, 182), (114, 182), (114, 192), (116, 219),
];

/// A kind of piece whose mobility counts: knight, bishop, rook or queen.
pub open spec fn mobility_kind(k: u8) -> bool {
    k == KNIGHT || k == BISHOP || k == ROOK || k == QUEEN
}

/// The number of entries of the mobility table of a kind.
pub open spec fn mobility_len(k: u8) -> int {
    if k == KNIGHT {
        9
    } else if k == BISHOP {
        14
    } else if k == ROOK {
        15
    } else {
        28
    }
}

/// The mobility bonus of a piece of kind `k` with `n` safe squares.
pub open spec fn mobility_value(k: u8, n: int) -> (isize, isize) {
    if k == KNIGHT {
        KNIGHT_MOBILITY[n]
    } else if k == BISHOP {
        BISHOP_MOBILITY[n]
    } else if k == ROOK {
        ROOK_MOBILITY[n]
    } else {
        QUEEN_MOBILITY[n]
    }
}

/// The squares where the pieces of `clr` may move safely: not its king, queens or pawns, nor
/// the squares the other side's pawns attack.
pub open spec fn mob_area(b: &Board, clr: int) -> u64 {
    0xffff_ffff_ffff_ffffu64 & !b.bitboard[KING + clr] & !b.bitboard[QUEEN + clr] & !b.bitboard[PAWN + clr] & !b.eval.attacked_by[PAWN
        + 1 - clr]
}

/// `m` holds the squares that a piece of kind `kind` and side `c` on `s` attacks, looking
/// through the sliders that move along with it.
pub open spec fn mob_mask_ok(bb: [u64; 14], kind: u8, c: int, s: int, m: u64) -> bool {
    forall|t: u64| t < 64 ==> #[trigger] has_bit(m, t) == piece_attack((kind + c) as u8, s, slider_occ(bb, kind, c), t as int)
}

/// The squares that a piece of kind `kind` and side `c` on `s` attacks, looking through the
/// sliders that move along with it.
pub open spec fn mob_mask(bb: [u64; 14], kind: u8, c: int, s: int) -> u64 {
    choose|m: u64| mob_mask_ok(bb, kind, c, s, m)
}

/// The bonus of the piece of kind `kind` of `clr` on `s` for its safe squares.
pub open spec fn mob_term(b: &Board, clr: int, kind: u8, s: int) -> (isize, isize) {
    mobility_value(kind, popcount(mob_mask(b.bitboard, kind, clr, s) & mob_area(b, clr)) as int)
}

/// The mobility bonuses of the pieces of kind `kind` of `clr` on the squares below `n`.
pub open spec fn mob_prefix(b: &Board, clr: int, kind: u8, n: int) -> (int, int)
    decreases n,
{
    if n <= 0 {
        (0, 0)
    } else {
        let p = mob_prefix(b, clr, kind, n - 1);
        if has_bit(b.bitboard[kind + clr], (n - 1) as u64) {
            let v = mob_term(b, clr, kind, n - 1);
            (p.0 + v.0, p.1 + v.1)
        } else {
            p
        }
    }
}

/// The mobility bonuses of the pieces of `clr` of the first `k` mobility kinds.
pub open spec fn mob_kinds(b: &Board, clr: int, k: int) -> (int, int)
    decreases k,
{
    if k <= 0 {
        (0, 0)
    } else {
        let p = mob_kinds(b, clr, k - 1);
        let v = mob_prefix(b, clr, PIECES_WITHOUT_PAWN_KING[k - 1], 64);
        (p.0 + v.0, p.1 + v.1)
    }
}

/// Each piece of `clr` with a mobility has fewer safe squares than its table has entries.
pub open spec fn mobility_fits(b: &Board, clr: int) -> bool {
    forall|j: int, s: int| 0 <= j < 4 && 0 <= s < 64 && #[trigger] has_bit(b.bitboard[PIECES_WITHOUT_PAWN_KING[j] + clr], s as u64)
        ==> popcount(mob_mask(b.bitboard, PIECES_WITHOUT_PAWN_KING[j], clr, s) & mob_area(b, clr)) < mobility_len(
        PIECES_WITHOUT_PAWN_KING[j],
    )
}

/// The mobility tables hold bonuses of at most 219 in size.
proof fn lemma_mobility_table_bound()
    ensures
        forall|n: int| 0 <= n < 9 ==> -219 <= #[trigger] KNIGHT_MOBILITY[n].0 <= 219 && -219 <= KNIGHT_MOBILITY[n].1 <= 219,
        forall|n: int| 0 <= n < 14 ==> -219 <= #[trigger] BISHOP_MOBILITY[n].0 <= 219 && -219 <= BISHOP_MOBILITY[n].1 <= 219,
        forall|n: int| 0 <= n < 15 ==> -219 <= #[trigger] ROOK_MOBILITY[n].0 <= 219 && -219 <= ROOK_MOBILITY[n].1 <= 219,
        forall|n: int| 0 <= n < 28 ==> -219 <= #[trigger] QUEEN_MOBILITY[n].0 <= 219 && -219 <= QUEEN_MOBILITY[n].1 <= 219,
{
}

/// The bonuses of one kind over the squares below `n` stay within 219 per square.
proof fn lemma_prefix_bound(b: &Board, clr: int, j: int, n: int)
    requires
        0 <= j < 4,
        0 <= n <= 64,
        mobility_fits(b, clr),
    ensures
        -219 * n <= mob_prefix(b, clr, PIECES_WITHOUT_PAWN_KING[j], n).0 <= 219 * n,
        -219 * n <= mob_prefix(b, clr, PIECES_WITHOUT_PAWN_KING[j], n).1 <= 219 * n,
    decreases n,
{
    if n > 0 {
        lemma_prefix_bound(b, clr, j, n - 1);
        lemma_mobility_table_bound();
        let kind = PIECES_WITHOUT_PAWN_KING[j];
        assert(mobility_kind(kind));
        if has_bit(b.bitboard[kind + clr], (n - 1) as u64) {
            assert(popcount(mob_mask(b.bitboard, kind, clr, n - 1) & mob_area(b, clr)) < mobility_len(kind));
        }
    }
}

/// The bonuses of the first `k` kinds stay within their bound.
proof fn lemma_kinds_bound(b: &Board, clr: int, k: int)
    requires
        0 <= k <= 4,
        mobility_fits(b, clr),
    ensures
        -14016 * k <= mob_kinds(b, clr, k).0 <= 14016 * k,
        -14016 * k <= mob_kinds(b, clr, k).1 <= 14016 * k,
    decreases k,
{
    if k > 0 {
        lemma_kinds_bound(b, clr, k - 1);
        lemma_prefix_bound(b, clr, k - 1, 64);
    }
}

/// Squares below `hi` and from `lo` up that hold no piece of the kind add nothing.
proof fn lemma_prefix_skip(b: &Board, clr: int, kind: u8, lo: int, hi: int)
    requires
        0 <= lo <= hi <= 64,
        forall|i: u64| lo <= i < hi ==> !#[trigger] has_bit(b.bitboard[kind + clr], i),
    ensures
        mob_prefix(b, clr, kind, hi) == mob_prefix(b, clr, kind, lo),
    decreases hi - lo,
{
    if hi > lo {
        lemma_prefix_skip(b, clr, kind, lo, hi - 1);
        assert(!has_bit(b.bitboard[kind + clr], (hi - 1) as u64));
    }
}

pub trait MobilityEvalTrait: CommonEvalTrait {
    /// The score of `clr` may take its mobility bonuses, and each of its pieces with a
    /// mobility has fewer safe squares than its table has entries.
    spec fn mobility_room(&self, clr: Color) -> bool;

    /// Adds to the score of `clr` the bonus of each knight, bishop, rook and queen for the
    /// number of squares it may safely move to.
    fn mobility_eval(&mut self, clr: Color)
        requires
            clr < 2,
            old(self).mobility_room(clr),
    ;

    /// The bonus of `piece` for `safe_squares` safe squares.
    fn mobility_bonus(&mut self, piece: Piece, safe_squares: usize) -> (isize, isize)
        requires
            mobility_kind(piece_kind(piece)),
            safe_squares < mobility_len(piece_kind(piece)),
    ;

    /// The squares where the pieces of `clr` may move safely.
    fn mobility_area(&mut self, clr: Color) -> u64
        requires
            clr < 2,
    ;

    /// The squares that `piece` of `clr` on `sq` attacks, looking through the sliders that
    /// move along with it.
    fn mobility_piece(&mut self, sq: usize, piece: Piece, clr: Color) -> u64
        requires
            sq < 64,
            clr < 2,
            piece < 16,
            mobility_kind(piece_kind(piece)),
    ;
}

impl MobilityEvalTrait for Board {
    open spec fn mobility_room(&self, clr: Color) -> bool {
        &&& -SCORE_LIMIT / 2 <= self.eval.score[clr as int].0 <= SCORE_LIMIT / 2
        &&& -SCORE_LIMIT / 2 <= self.eval.score[clr as int].1 <= SCORE_LIMIT / 2
        &&& mobility_fits(self, clr as int)
    }

    fn mobility_eval(&mut self, clr: Color)
        ensures
            score_added(&*old(self), &*final(self), clr as int, mob_kinds(&*old(self), clr as int, 4)),
    {
        let ghost b0 = *self;
        let area = self.mobility_area(clr);
        proof {
            lemma_kinds_bound(&b0, clr as int, 4);
        }
        let mut k: usize = 0;
        while k < 4
            invariant
                k <= 4,
                clr < 2,
                area == mob_area(&b0, clr as int),
                b0.mobility_room(clr),
                score_added(&b0, self, clr as int, mob_kinds(&b0, clr as int, k as int)),
            decreases 4 - k,
        {
            let piece = PIECES_WITHOUT_PAWN_KING[k] + clr;
            let ghost kind = PIECES_WITHOUT_PAWN_KING[k as int];
            let ghost orig = b0.bitboard[piece as int];
            proof {
                lemma_kinds_bound(&b0, clr as int, k as int);
                crate::piece::lemma_piece_color_mod(piece);
            }
            let mut bb = self.bb(piece);
            let ghost mut lo: int = 0;
            while bb != 0
                invariant
                    k < 4,
                    clr < 2,
                    piece == kind + clr,
                    kind == PIECES_WITHOUT_PAWN_KING[k as int],
                    mobility_kind(kind),
                    orig == b0.bitboard[piece as int],
                    0 <= lo <= 64,
                    area == mob_area(&b0, clr as int),
                    b0.mobility_room(clr),
                    forall|i: u64| i < 64 ==> #[trigger] has_bit(bb, i) == (has_bit(orig, i) && i >= lo),
                    ({
                        let p = mob_kinds(&b0, clr as int, k as int);
                        let q = mob_prefix(&b0, clr as int, kind, lo);
                        score_added(&b0, self, clr as int, (p.0 + q.0, p.1 + q.1))
                    }),
                decreases bb,
            {
                let ghost before = bb;
                let sq = bb.pop_lsb();
                proof {
                    assert(has_bit(before, sq as u64));
                    assert forall|i: u64| lo <= i < sq as int implies !#[trigger] has_bit(b0.bitboard[kind + clr], i) by {
                        assert(!has_bit(before, i));
                    }
                    lemma_prefix_skip(&b0, clr as int, kind, lo, sq as int);
                    lemma_prefix_bound(&b0, clr as int, k as int, sq as int + 1);
                    lemma_kinds_bound(&b0, clr as int, k as int);
                }
                let m = self.mobility_piece(sq, piece, clr);
                proof {
                    assert(mob_mask_ok(b0.bitboard, kind, clr as int, sq as int, m));
                    let c = mob_mask(b0.bitboard, kind, clr as int, sq as int);
                    crate::bits::lemma_bits_ext(m, c);
                }
                let safe = (m & area).count();
                proof {
                    assert(has_bit(b0.bitboard[PIECES_WITHOUT_PAWN_KING[k as int] + clr], sq as u64));
                }
                let bonus = self.mobility_bonus(piece, safe);
                self.sum(clr, Some(sq), Some(piece), bonus);
                proof {
                    lo = sq as int + 1;
                }
            }
            proof {
                crate::bits::lemma_bit_consts();
                assert forall|i: u64| lo <= i < 64 implies !#[trigger] has_bit(b0.bitboard[kind + clr], i) by {
                    assert(!has_bit(bb, i));
                }
                lemma_prefix_skip(&b0, clr as int, kind, lo, 64);
            }
            k = k + 1;
        }
    }

    fn mobility_bonus(&mut self, piece: Piece, safe_squares: usize) -> (r: (isize, isize))
        ensures
            r == mobility_value(piece_kind(piece), safe_squares as int),
            *final(self) == *old(self),
    {
        let kind = piece.kind();
        if kind == KNIGHT {
            KNIGHT_MOBILITY[safe_squares]
        } else if kind == BISHOP {
            BISHOP_MOBILITY[safe_squares]
        } else if kind == ROOK {
            ROOK_MOBILITY[safe_squares]
        } else {
            QUEEN_MOBILITY[safe_squares]
        }
    }

    fn mobility_area(&mut self, clr: Color) -> (r: u64)
        ensures
            r == mob_area(&*old(self), clr as int),
            *final(self) == *old(self),
    {
        let opp = clr.opposite();
        (u64::MAX) & !self.king_bb(clr) & !self.queen_bb(clr) & !self.pawn_bb(clr) & !self.eval.attacked_by[(PAWN + opp) as usize]
    }

    fn mobility_piece(&mut self, sq: usize, piece: Piece, clr: Color) -> (r: u64)
        ensures
            mob_mask_ok(old(self).bitboard, piece_kind(piece), clr as int, sq as int, r),
            *final(self) == *old(self),
    {
        let (mut own, mut enemy) = self.both_occ_bb(clr);
        let kind = piece.kind();
        if kind == KNIGHT {
            get_knight_mask(sq, own, enemy, clr)
        } else if kind == BISHOP {
            own = own & !self.queen_bb(clr);
            enemy = enemy & !self.queen_bb(clr.opposite());
            get_bishop_mask(sq, own, enemy, clr)
        } else if kind == ROOK {
            own = own & !(self.queen_bb(clr) | self.rook_bb(clr));
            enemy = enemy & !self.queen_bb(clr.opposite());
            get_rook_mask(sq, own, enemy, clr)
        } else {
            get_queen_mask(sq, own, enemy, clr)
        }
    }
}

/// The center squares of each side: the four central files of its second, third and fourth
/// ranks.
pub const CLR_CENTER: [u64; 2] = [1010580480, 16954726998343680];

/// The squares of the center of `c` that count for its space: those its own pawns leave free
/// and enemy pawns do not attack, once more for those also behind its pawns and not attacked
/// by the enemy at all.
pub open spec fn space_area_of(b: &Board, c: int) -> int {
    let center = CLR_CENTER[c];
    let own_pawns = b.bitboard[PAWN + c];
    popcount(center & !b.eval.attacked_by[PAWN + 1 - c] & !own_pawns) as int + popcount(
        b.eval.pawn_behind_masks[c] & center & !b.eval.attack_map[1 - c] & !own_pawns,
    ) as int
}

/// The square `t` is blocked for the space of `c`: a pawn of either side stands right in
/// front of a pawn of the other, or a square in front of a pawn is attacked twice by pawns
/// of the other side.
pub open spec fn space_blocked_sq(bb: [u64; 14], c: u8, t: int) -> bool {
    let o = (1 - c) as u8;
    let own = bb[PAWN + c];
    let opp = bb[PAWN + o];
    ||| all_forward_target(own, c, t) && has_bit(opp, t as u64)
    ||| all_forward_target(opp, o, t) && has_bit(own, t as u64)
    ||| all_left_target(opp, o, t) && all_right_target(opp, o, t) && all_forward_target(own, c, t)
    ||| all_left_target(own, c, t) && all_right_target(own, c, t) && all_forward_target(opp, o, t)
}

/// `x` holds the blocked squares for the space of `c`.
pub open spec fn space_blocked_bits(x: u64, bb: [u64; 14], c: u8) -> bool {
    forall|t: u64| t < 64 ==> #[trigger] has_bit(x, t) == space_blocked_sq(bb, c, t as int)
}

/// The number of blocked squares for the space of `c`.
pub open spec fn space_blocked(bb: [u64; 14], c: u8) -> int {
    popcount(choose|x: u64| #[trigger] space_blocked_bits(x, bb, c)) as int
}

/// The weight of the space of `c`: its pieces less three, plus the blocked squares up to nine.
pub open spec fn space_weight(b: &Board, c: u8) -> int {
    let blocked = space_blocked(b.bitboard, c);
    popcount(b.bitboard[c as int]) - 3 + if blocked < 9 { blocked } else { 9 }
}

/// The space bonus of `c`, given to the middle game only.
pub open spec fn space_bonus(b: &Board, c: u8) -> int {
    let w = space_weight(b, c);
    space_area_of(b, c as int) * w * w / 16
}

/// The space term counts when both sides together keep enough non pawn material.
pub open spec fn space_counts(b: &Board) -> bool {
    non_pawn_material_of(b, 0) + non_pawn_material_of(b, 1) >= 12222
}

pub trait SpaceEvalTrait: CommonEvalTrait {
    /// Adds to the middle game score of `clr` its space bonus, when both sides keep enough
    /// non pawn material.
    fn space(&mut self, color: Color)
        requires
            color < 2,
            old(self).space_room(color),
    ;

    /// When the space term counts, `clr` has at least three pieces and its space bonus can be
    /// added to its score.
    spec fn space_room(&self, clr: Color) -> bool;

    /// The squares of the center of `clr` that count for its space.
    fn space_area(&mut self, color: Color) -> usize
        requires
            color < 2,
    ;
}

impl SpaceEvalTrait for Board {
    open spec fn space_room(&self, clr: Color) -> bool {
        space_counts(self) ==> {
            &&& popcount(self.bitboard[clr as int]) >= 3
            &&& self.score_room(clr, (space_bonus(self, clr) as isize, 0isize))
        }
    }

    fn space(&mut self, clr: Color)
        ensures
            !space_counts(&*old(self)) ==> *final(self) == *old(self),
            space_counts(&*old(self)) ==> score_added(&*old(self), &*final(self), clr as int, (space_bonus(&*old(self), clr), 0)),
    {
        let ghost b0 = *self;
        let opp = 1 - clr;
        let w = self.non_pawn_material_eval(clr);
        let b = self.non_pawn_material_eval(opp);
        proof {
            lemma_material_bound(self.bitboard, 0, kinds_seq().drop_first(), 5);
            lemma_material_bound(self.bitboard, 1, kinds_seq().drop_first(), 5);
        }
        if w + b < 12222 {
            return;
        }
        let own = self.pawn_bb(clr);
        let enemy = self.pawn_bb(opp);
        let own_fwd = get_all_pawn_forward_mask(own, clr);
        let enemy_fwd = get_all_pawn_forward_mask(enemy, opp);
        let own_pawns_blocked = own_fwd & enemy;
        let enemy_pawns_blocked = enemy_fwd & own;
        let el = get_all_pawn_left_att_mask(enemy, opp);
        let er = get_all_pawn_right_att_mask(enemy, opp);
        let ol = get_all_pawn_left_att_mask(own, clr);
        let or = get_all_pawn_right_att_mask(own, clr);
        let own_sq_blocked = el & er & own_fwd;
        let enemy_sq_blocked = ol & or & enemy_fwd;
        let blocked_bb = own_pawns_blocked | enemy_pawns_blocked | own_sq_blocked | enemy_sq_blocked;
        proof {
            lemma_bit_ops(own_fwd, enemy);
            lemma_bit_ops(enemy_fwd, own);
            lemma_bit_ops(el, er);
            lemma_bit_ops(el & er, own_fwd);
            lemma_bit_ops(ol, or);
            lemma_bit_ops(ol & or, enemy_fwd);
            lemma_bit_ops(own_pawns_blocked, enemy_pawns_blocked);
            lemma_bit_ops(own_pawns_blocked | enemy_pawns_blocked, own_sq_blocked);
            lemma_bit_ops(own_pawns_blocked | enemy_pawns_blocked | own_sq_blocked, enemy_sq_blocked);
            assert(space_blocked_bits(blocked_bb, b0.bitboard, clr));
            let x = choose|x: u64| #[trigger] space_blocked_bits(x, b0.bitboard, clr);
            lemma_bits_ext(x, blocked_bb);
        }
        let blocked = blocked_bb.count();
        let pieces = self.occ_bb(clr).count();
        proof {
            lemma_count_bits_bound(blocked_bb, 64);
            lemma_count_bits_bound(b0.bitboard[clr as int], 64);
        }
        let capped_blocked = if blocked < 9 { blocked } else { 9 };
        let weight = (pieces - 3 + capped_blocked) as isize;
        let area = self.space_area(clr);
        proof {
            assert(area <= 128);
            assert(0 <= weight <= 73);
            assert(area * weight <= 128 * 73) by (nonlinear_arith)
                requires
                    0 <= area <= 128,
                    0 <= weight <= 73,
            ;
            assert(area * weight * weight <= 128 * 73 * 73) by (nonlinear_arith)
                requires
                    0 <= area * weight <= 128 * 73,
                    0 <= weight <= 73,
            ;
            assert(area * weight >= 0) by (nonlinear_arith)
                requires
                    0 <= area,
                    0 <= weight,
            ;
            assert(area * weight * weight >= 0) by (nonlinear_arith)
                requires
                    0 <= area * weight,
                    0 <= weight,
            ;
        }
        let bonus = area as isize * weight * weight / 16;
        self.sum(clr, None, None, (bonus, 0));
    }

    fn space_area(&mut self, clr: Color) -> (r: usize)
        ensures
            r == space_area_of(&*old(self), clr as int),
            r <= 128,
            *final(self) == *old(self),
    {
        let own_pawns_bb = self.pawn_bb(clr);
        let pawn_behind_bb = self.eval.pawn_behind_masks[clr as usize];
        let opp_att_bb = self.eval.attack_map[(1 - clr) as usize];
        let opp_pawn_att_bb = self.eval.attacked_by[(PAWN + 1 - clr) as usize];
        let center = CLR_CENTER[clr as usize];
        let a = center & !opp_pawn_att_bb & !own_pawns_bb;
        let b = pawn_behind_bb & center & !opp_att_bb & !own_pawns_bb;
        proof {
            lemma_count_bits_bound(a, 64);
            lemma_count_bits_bound(b, 64);
        }
        a.count() + b.count()
    }
}

/// The text that `format!` makes of a trace entry: the piece, the color and the square with
/// `{:?}`, then the middle and end game values.
pub uninterp spec fn trace_text(color: u8, square: Option<usize>, piece: Option<u8>, mg: isize, eg: isize) -> Seq<char>;

/// The log line of a trace entry, made by `format!` (std's `alloc::fmt::format`); the text is
/// the name `trace_text` of the arguments, what it spells out is not stated.
#[verifier::external_body]
fn trace_line(color: Color, square: Option<usize>, piece: Option<Piece>, value: (isize, isize)) -> (r: String)
    ensures
        r@ == trace_text(color, square, piece, value.0, value.1),
{
    format!("Piece:{:?} ,Color: {:?}, Square: {:?}, Value Mg: {:?}, Value Eg: {:?}", piece, color, square, value.0, value.1)
}

/// The entry `value` can be added to the trace board of `c` at `square`.
pub open spec fn trace_room(e: &Evaluation, c: int, square: Option<usize>, value: (isize, isize)) -> bool {
    square matches Some(sq) ==> {
        &&& sq < 64
        &&& isize::MIN <= e.mg_test[c][sq as int] + value.0 <= isize::MAX
        &&& isize::MIN <= e.eg_test[c][sq as int] + value.1 <= isize::MAX
    }
}

/// `new` is `old` with the trace entry `value` of `c` at `square` logged and, when there is a
/// square, added to the trace boards.
pub open spec fn traced(old: &Evaluation, new: &Evaluation, c: int, square: Option<usize>, piece: Option<u8>, value: (isize, isize)) -> bool {
    &&& new.vec_test@.len() == old.vec_test@.len() + 1
    &&& new.vec_test@.drop_last() == old.vec_test@
    &&& new.vec_test@.last()@ == trace_text(c as u8, square, piece, value.0, value.1)
    &&& forall|c2: int, s2: int| 0 <= c2 < 2 && 0 <= s2 < 64 ==> {
        let hit = square == Some(s2 as usize) && c2 == c;
        &&& #[trigger] new.mg_test[c2][s2] == old.mg_test[c2][s2] + if hit { value.0 as int } else { 0 }
        &&& new.eg_test[c2][s2] == old.eg_test[c2][s2] + if hit { value.1 as int } else { 0 }
    }
    &&& new == (Evaluation { vec_test: new.vec_test, mg_test: new.mg_test, eg_test: new.eg_test, ..*old })
}

pub trait TraceEvalTrait {
    /// Logs the entry `value` of `color` and adds it to the trace boards at `square`.
    fn trace(&mut self, color: Color, square: Option<usize>, piece: Option<Piece>, value: (isize, isize))
        requires
            color < 2,
            old(self).trace_fits(color, square, value),
    ;

    /// Clears the trace: the log and both trace boards.
    fn reset_trace(&mut self);

    /// The entry can be added to the trace boards.
    spec fn trace_fits(&self, color: Color, square: Option<usize>, value: (isize, isize)) -> bool;
}

impl TraceEvalTrait for Board {
    open spec fn trace_fits(&self, color: Color, square: Option<usize>, value: (isize, isize)) -> bool {
        trace_room(&self.eval, color as int, square, value)
    }

    fn trace(&mut self, color: Color, square: Option<usize>, piece: Option<Piece>, value: (isize, isize))
        ensures
            only_eval_changed(&*old(self), &*final(self)),
            traced(&old(self).eval, &final(self).eval, color as int, square, piece, value),
    {
        let ghost e0 = self.eval;
        let line = trace_line(color, square, piece, value);
        self.eval.vec_test.push(line);
        proof {
            assert(self.eval.vec_test@.drop_last() =~= e0.vec_test@);
        }
        if let Some(sq) = square {
            let c = color as usize;
            self.eval.mg_test[c][sq] = self.eval.mg_test[c][sq] + value.0;
            self.eval.eg_test[c][sq] = self.eval.eg_test[c][sq] + value.1;
        }
        proof {
            let e1 = self.eval;
            assert(e1 == (Evaluation { vec_test: e1.vec_test, mg_test: e1.mg_test, eg_test: e1.eg_test, ..e0 }));
            assert(e1.vec_test@.drop_last() == e0.vec_test@);
            assert(e1.vec_test@.last()@ == trace_text(color, square, piece, value.0, value.1));
        }
    }

    fn reset_trace(&mut self)
        ensures
            only_eval_changed(&*old(self), &*final(self)),
            final(self).eval.trace_cleared(),
            final(self).eval == (Evaluation { vec_test: final(self).eval.vec_test, mg_test: final(self).eval.mg_test, eg_test: final(self).eval.eg_test, ..old(self).eval }),
    {
        self.eval.vec_test.clear();
        self.eval.mg_test = [[0; 64]; 2];
        self.eval.eg_test = [[0; 64]; 2];
    }
}

/// `x` holds the knights and bishops of `c` that stand right behind a pawn of either side,
/// seen from `c`.
pub open spec fn minor_behind_bits(x: u64, bb: [u64; 14], c: u8) -> bool {
    let minors = bb[KNIGHT + c] | bb[BISHOP + c];
    let pawns = bb[PAWN + c] | bb[PAWN + 1 - c];
    forall|t: u64| t < 64 ==> #[trigger] has_bit(x, t) == (has_bit(minors, t) && all_forward_target(pawns, (1 - c) as u8, t as int))
}

/// The number of knights and bishops of `c` right behind a pawn.
pub open spec fn minor_behind_count(bb: [u64; 14], c: u8) -> int {
    popcount(choose|x: u64| #[trigger] minor_behind_bits(x, bb, c)) as int
}

/// The sum of `f` over the squares of `bb` below `n`.
pub open spec fn sq_sum(bb: u64, f: spec_fn(int) -> (int, int), n: int) -> (int, int)
    decreases n,
{
    if n <= 0 {
        (0, 0)
    } else {
        let p = sq_sum(bb, f, n - 1);
        if has_bit(bb, (n - 1) as u64) {
            let v = f(n - 1);
            (p.0 + v.0, p.1 + v.1)
        } else {
            p
        }
    }
}

/// Squares without a piece of `bb` add nothing.
proof fn lemma_sq_sum_skip(bb: u64, f: spec_fn(int) -> (int, int), lo: int, hi: int)
    requires
        0 <= lo <= hi <= 64,
        forall|i: u64| lo <= i < hi ==> !#[trigger] has_bit(bb, i),
    ensures
        sq_sum(bb, f, hi) == sq_sum(bb, f, lo),
    decreases hi - lo,
{
    if hi > lo {
        lemma_sq_sum_skip(bb, f, lo, hi - 1);
        assert(!has_bit(bb, (hi - 1) as u64));
    }
}

/// A sum of terms each within `m` of zero lies within `m` per square of zero.
proof fn lemma_sq_sum_bound(bb: u64, f: spec_fn(int) -> (int, int), m: int, n: int)
    requires
        0 <= n <= 64,
        0 <= m,
        forall|s: int| 0 <= s < 64 ==> -m <= #[trigger] f(s).0 <= m && -m <= f(s).1 <= m,
    ensures
        -m * n <= sq_sum(bb, f, n).0 <= m * n,
        -m * n <= sq_sum(bb, f, n).1 <= m * n,
    decreases n,
{
    if n > 0 {
        lemma_sq_sum_bound(bb, f, m, n - 1);
        let v = f(n - 1);
        assert(-m <= v.0 <= m && -m <= v.1 <= m);
        assert(m * n == m * (n - 1) + m) by (nonlinear_arith);
        assert(-m * n == -m * (n - 1) - m) by (nonlinear_arith);
    }
}

/// The king distance is at most eight.
proof fn lemma_king_dist_bound(b: &Board, c: u8, sq: int)
    requires
        0 <= sq < 64,
    ensures
        0 <= king_dist_of(b, c, sq) <= 8,
{
    let kb = b.bitboard[KING + c];
    if kb != 0 {
        lemma_nonzero_has_bit(kb);
        crate::tables::lemma_lowest_exists(kb, 64);
    }
}

/// The penalty of a knight of `c` on `s` for its distance to its king.
pub open spec fn knight_protector(b: Board, c: u8) -> spec_fn(int) -> (int, int) {
    |s: int| (-8 * king_dist_of(&b, c, s), -9 * king_dist_of(&b, c, s))
}

/// The penalty of a bishop of `c` on `s` for its distance to its king.
pub open spec fn bishop_protector(b: Board, c: u8) -> spec_fn(int) -> (int, int) {
    |s: int| (-6 * king_dist_of(&b, c, s), -9 * king_dist_of(&b, c, s))
}

/// Some queen of either side stands on the file of `s`.
pub open spec fn queen_on_file(b: &Board, s: int) -> bool {
    exists|t: u64| t < 64 && t % 8 == s % 8 && #[trigger] has_bit(b.bitboard[QUEEN + 0] | b.bitboard[QUEEN + 1], t)
}

/// The bonus of a rook on `s` on the file of a queen.
pub open spec fn rook_queen_file(b: Board) -> spec_fn(int) -> (int, int) {
    |s: int| if queen_on_file(&b, s) { (6int, 11int) } else { (0int, 0int) }
}

/// The number of pawns of the other side that a bishop on `s` sees on an empty board.
pub open spec fn xray_pawns(b: Board, c: u8) -> spec_fn(int) -> (int, int) {
    |s: int| (popcount(choose|x: u64| #[trigger] xray_bits(x, b.bitboard[PAWN + 1 - c], s)) as int, 0int)
}

/// `x` holds the pawns of `pawns` on the diagonals of `s`.
pub open spec fn xray_bits(x: u64, pawns: u64, s: int) -> bool {
    forall|t: u64| t < 64 ==> #[trigger] has_bit(x, t) == (bishop_target(s, 0, t as int) && has_bit(pawns, t))
}

/// `x` holds the outposts of `c` that a knight of `c` on `s` reaches and that no piece of `c`
/// takes.
pub open spec fn outpost_reach_bits(x: u64, b: Board, c: u8, s: int) -> bool {
    forall|t: u64| t < 64 ==> #[trigger] has_bit(x, t) == (has_bit(b.eval.outpost[c as int], t)
        && piece_attack((KNIGHT + c) as u8, s, x_ray_occ(b.bitboard, (KNIGHT + c) as u8), t as int)
        && !has_bit(b.bitboard[c as int], t))
}

/// A knight of `c` on `s` stands off the outposts of `c` and reaches a free one.
pub open spec fn outpost_reach(b: Board, c: u8, s: int) -> bool {
    !has_bit(b.eval.outpost[c as int], s as u64) && (choose|x: u64| #[trigger] outpost_reach_bits(x, b, c, s)) != 0
}

/// The outpost terms of `c`: one bonus when some knight can reach an outpost, and a bonus for
/// each knight and each bishop on one.
pub open spec fn outpost_total_of(b: Board, c: u8) -> (int, int) {
    let kb = b.bitboard[KNIGHT + c];
    let a: (int, int) = if exists|s: u64| s < 64 && #[trigger] has_bit(kb, s) && outpost_reach(b, c, s as int) {
        (31, 22)
    } else {
        (0, 0)
    };
    let kn = popcount(kb & b.eval.outpost[c as int]) as int;
    let bi = popcount(b.bitboard[BISHOP + c] & b.eval.outpost[c as int]) as int;
    (a.0 + 56 * kn + 30 * bi, a.1 + 36 * kn + 23 * bi)
}

/// The file of the king of `c`; file 0 when it has none.
pub open spec fn king_file_of(b: &Board, c: u8) -> int {
    let kb = b.bitboard[KING + c];
    let k = if kb == 0 { 64 } else { lowest_sq(kb) };
    k % 8
}

/// `x` holds the squares a rook of `c` on `s` reaches, seeing through the queens and its own
/// rooks.
pub open spec fn rook_reach_bits(x: u64, b: Board, c: u8, s: int) -> bool {
    forall|t: u64| t < 64 ==> #[trigger] has_bit(x, t) == piece_attack((ROOK + c) as u8, s, x_ray_occ(b.bitboard, (ROOK + c) as u8), t as int)
}

/// 1 while `c` still holds a castling right, 2 when it holds none.
pub open spec fn castle_factor(b: &Board, c: u8) -> int {
    if clr_side_mask(c, 1) & b.state.castling != 0 || clr_side_mask(c, 0) & b.state.castling != 0 {
        1
    } else {
        2
    }
}

/// The penalty of a rook of `c` on `s` that reaches at most three squares and stands on the
/// side of its king away from the centre.
pub open spec fn trapped_rook_term(b: Board, c: u8) -> spec_fn(int) -> (int, int) {
    |s: int| if popcount(choose|x: u64| #[trigger] rook_reach_bits(x, b, c, s)) <= 3
        && ((king_file_of(&b, c) < 4) == (s % 8 < king_file_of(&b, c))) {
        (-55 * castle_factor(&b, c), -13 * castle_factor(&b, c))
    } else {
        (0int, 0int)
    }
}

/// The score of `c` lies within half the score bound.
pub open spec fn half_room(b: &Board, c: int) -> bool {
    &&& -SCORE_LIMIT / 2 <= b.eval.score[c].0 <= SCORE_LIMIT / 2
    &&& -SCORE_LIMIT / 2 <= b.eval.score[c].1 <= SCORE_LIMIT / 2
}

/// The ranks where a queen of each side has infiltrated: the far half of the board.
pub const QUEEN_INFILTRATION: [u64; 2] = [0xFFFF_FFFF_0000_0000, 0x0000_0000_FFFF_FFFF];

/// A rook on `s` counts for the king ring of the other side: some square of that ring lies
/// on the rank whose index is the file of `s`.
pub open spec fn rook_ring(b: Board, c: u8) -> spec_fn(int) -> (int, int) {
    |s: int| if exists|t: u64| t < 64 && t / 8 == s % 8 && #[trigger] has_bit(b.eval.king_ring[1 - c], t) {
        (1int, 0int)
    } else {
        (0int, 0int)
    }
}

/// A bishop on `s` counts for the king ring of the other side: it reaches a square of that
/// ring over the pawns of both sides.
pub open spec fn bishop_ring(b: Board, c: u8) -> spec_fn(int) -> (int, int) {
    |s: int| if exists|t: u64| t < 64 && bishop_target(s, b.bitboard[PAWN + c] | b.bitboard[PAWN + 1 - c], t as int)
        && #[trigger] has_bit(b.eval.king_ring[1 - c], t) {
        (1int, 0int)
    } else {
        (0int, 0int)
    }
}

/// The squares of the four central files.
pub const CENTER_FILES: u64 = 0x3C3C_3C3C_3C3C_3C3C;

/// `x` holds the pawns of `c` on the central files whose square in front is occupied.
pub open spec fn blocked_center_bits(x: u64, b: &Board, c: u8) -> bool {
    let occ = b.bitboard[0] | b.bitboard[1];
    forall|t: u64| t < 64 ==> #[trigger] has_bit(x, t) == (has_bit(b.bitboard[PAWN + c], t) && 0 <= front_of(c, t as int) < 64
        && has_bit(occ, front_of(c, t as int) as u64) && 2 <= t % 8 <= 5)
}

/// The part of the bishop pawn penalty of `c` from the squares `sqs` of one color.
pub open spec fn bishop_pawns_part(b: &Board, c: u8, sqs: u64, blocked: int) -> int {
    let bishops = b.bitboard[BISHOP + c] & sqs;
    let nb = popcount(bishops) as int;
    let np = popcount(b.bitboard[PAWN + c] & sqs) as int;
    let att = if b.eval.attacked_by[PAWN + c] & bishops > 0 { 0int } else { 1int };
    np * (blocked * nb + att * nb)
}

/// The bishop pawn penalty of `c`: for each color of squares, its pawns on that color times
/// its bishops on it, weighted by its blocked central pawns and by whether no own pawn
/// attacks those bishops.
pub open spec fn bishop_pawns_of(b: &Board, c: u8) -> int {
    let blocked = popcount(choose|x: u64| #[trigger] blocked_center_bits(x, b, c)) as int;
    bishop_pawns_part(b, c, WHITE_SQUARES, blocked) + bishop_pawns_part(b, c, BLACK_SQUARES, blocked)
}

pub trait PieceEvalTrait {
    /// The knights and bishops of `clr` on its outpost squares.
    fn outpost(&mut self, clr: Color) -> u64
        requires
            clr < 2,
    ;

    /// The outpost squares of `clr` that its knights or bishops attack and that it does not
    /// occupy.
    fn reachable_outpost(&mut self, clr: Color) -> u64
        requires
            clr < 2,
    ;

    /// The number of knights and bishops of `clr` right behind a pawn of either side.
    fn minor_behind_pawn(&mut self, clr: Color) -> isize
        requires
            clr < 2,
    ;

    /// The score of `clr` lies within half the score bound.
    spec fn piece_room(&self, clr: Color) -> bool;

    /// Subtracts from the score of `clr`, for each of its knights and bishops, a penalty for
    /// its distance to its king.
    fn king_protector(&mut self, clr: Color)
        requires
            clr < 2,
            old(self).piece_room(clr),
    ;

    /// Adds to the score of `clr` its outpost terms.
    fn outpost_total(&mut self, clr: Color)
        requires
            clr < 2,
            old(self).piece_room(clr),
    ;

    /// Subtracts from the score of `clr` a penalty for each of its rooks off its open files
    /// that is trapped beside its king.
    fn trapped_rook(&mut self, clr: Color)
        requires
            clr < 2,
            old(self).piece_room(clr),
    ;

    /// Adds to the score of `clr` a bonus for each of its rooks on the file of a queen.
    fn rook_on_queen_file(&mut self, clr: Color)
        requires
            clr < 2,
            old(self).piece_room(clr),
    ;

    /// The penalty of `clr` for pawns on the squares of the color of its bishops.
    fn bishop_pawns(&mut self, clr: Color) -> isize
        requires
            clr < 2,
    ;

    /// The number of queens of `clr` in the far half of the board, on squares no enemy pawn
    /// attacks or can come to attack.
    fn queen_infaltration(&mut self, clr: Color) -> isize
        requires
            clr < 2,
    ;

    /// The number of rooks of `clr`, not already counted as king attackers, that count for
    /// the king ring of the other side.
    fn rook_on_king_ring(&mut self, clr: Color) -> isize
        requires
            clr < 2,
    ;

    /// The number of bishops of `clr`, not already counted as king attackers, that reach the
    /// king ring of the other side.
    fn bishop_on_king_ring(&mut self, clr: Color) -> isize
        requires
            clr < 2,
    ;

    /// The number of pawns of the other side on the diagonals of the bishops of `clr`, on an
    /// empty board.
    fn bishop_xray_pawns(&mut self, clr: Color) -> isize
        requires
            clr < 2,
    ;
}

impl PieceEvalTrait for Board {
    open spec fn piece_room(&self, clr: Color) -> bool {
        half_room(self, clr as int)
    }

    fn king_protector(&mut self, clr: Color)
        ensures
            ({
                let kn = sq_sum(old(self).bitboard[KNIGHT + clr], knight_protector(*old(self), clr), 64);
                let bi = sq_sum(old(self).bitboard[BISHOP + clr], bishop_protector(*old(self), clr), 64);
                score_added(&*old(self), &*final(self), clr as int, (kn.0 + bi.0, kn.1 + bi.1))
            }),
    {
        let ghost b0 = *self;
        let ghost fk = knight_protector(b0, clr);
        let ghost fb = bishop_protector(b0, clr);
        proof {
            assert forall|s: int| 0 <= s < 64 implies -72 <= #[trigger] fk(s).0 <= 72 && -72 <= fk(s).1 <= 72 by {
                lemma_king_dist_bound(&b0, clr, s);
            }
            assert forall|s: int| 0 <= s < 64 implies -72 <= #[trigger] fb(s).0 <= 72 && -72 <= fb(s).1 <= 72 by {
                lemma_king_dist_bound(&b0, clr, s);
            }
            lemma_sq_sum_bound(b0.bitboard[KNIGHT + clr], fk, 72, 64);
        }
        let mut bb = self.knight_bb(clr);
        let ghost orig = b0.bitboard[KNIGHT + clr];
        let ghost mut lo: int = 0;
        while bb != 0
            invariant
                clr < 2,
                orig == b0.bitboard[KNIGHT + clr],
                fk == knight_protector(b0, clr),
                0 <= lo <= 64,
                half_room(&b0, clr as int),
                forall|s: int| 0 <= s < 64 ==> -72 <= #[trigger] fk(s).0 <= 72 && -72 <= fk(s).1 <= 72,
                forall|i: u64| i < 64 ==> #[trigger] has_bit(bb, i) == (has_bit(orig, i) && i >= lo),
                score_added(&b0, self, clr as int, sq_sum(orig, fk, lo)),
            decreases bb,
        {
            let ghost before = bb;
            let sq = bb.pop_lsb();
            proof {
                assert(has_bit(before, sq as u64));
                assert forall|i: u64| lo <= i < sq as int implies !#[trigger] has_bit(orig, i) by {
                    assert(!has_bit(before, i));
                }
                lemma_sq_sum_skip(orig, fk, lo, sq as int);
                lemma_sq_sum_bound(orig, fk, 72, sq as int);
                lemma_king_dist_bound(&b0, clr, sq as int);
            }
            let dx = self.king_dist(clr, sq) as isize;
            self.sum(clr, Some(sq), Some(KNIGHT), (-8 * dx, -9 * dx));
            proof {
                lo = sq as int + 1;
            }
        }
        proof {
            lemma_bit_consts();
            assert forall|i: u64| lo <= i < 64 implies !#[trigger] has_bit(orig, i) by {
                assert(!has_bit(bb, i));
            }
            lemma_sq_sum_skip(orig, fk, lo, 64);
            lemma_sq_sum_bound(orig, fk, 72, 64);
        }
        let ghost b1 = *self;
        let ghost kn = sq_sum(orig, fk, 64);
        let mut bb = self.bishop_bb(clr);
        let ghost origb = b0.bitboard[BISHOP + clr];
        let ghost mut lo: int = 0;
        while bb != 0
            invariant
                clr < 2,
                origb == b0.bitboard[BISHOP + clr],
                fb == bishop_protector(b0, clr),
                kn == sq_sum(orig, fk, 64),
                -72 * 64 <= kn.0 <= 72 * 64,
                -72 * 64 <= kn.1 <= 72 * 64,
                0 <= lo <= 64,
                half_room(&b0, clr as int),
                forall|s: int| 0 <= s < 64 ==> -72 <= #[trigger] fb(s).0 <= 72 && -72 <= fb(s).1 <= 72,
                forall|i: u64| i < 64 ==> #[trigger] has_bit(bb, i) == (has_bit(origb, i) && i >= lo),
                ({
                    let q = sq_sum(origb, fb, lo);
                    score_added(&b0, self, clr as int, (kn.0 + q.0, kn.1 + q.1))
                }),
            decreases bb,
        {
            let ghost before = bb;
            let sq = bb.pop_lsb();
            proof {
                assert(has_bit(before, sq as u64));
                assert forall|i: u64| lo <= i < sq as int implies !#[trigger] has_bit(origb, i) by {
                    assert(!has_bit(before, i));
                }
                lemma_sq_sum_skip(origb, fb, lo, sq as int);
                lemma_sq_sum_bound(origb, fb, 72, sq as int);
                lemma_king_dist_bound(&b0, clr, sq as int);
            }
            let dx = self.king_dist(clr, sq) as isize;
            self.sum(clr, Some(sq), Some(BISHOP), (-6 * dx, -9 * dx));
            proof {
                lo = sq as int + 1;
            }
        }
        proof {
            lemma_bit_consts();
            assert forall|i: u64| lo <= i < 64 implies !#[trigger] has_bit(origb, i) by {
                assert(!has_bit(bb, i));
            }
            lemma_sq_sum_skip(origb, fb, lo, 64);
        }
    }

    fn outpost_total(&mut self, clr: Color)
        ensures
            score_added(&*old(self), &*final(self), clr as int, outpost_total_of(*old(self), clr)),
    {
        let ghost b0 = *self;
        let knights = self.knight_bb(clr);
        let outposts = self.eval.outpost[clr as usize];
        let own = self.occ_bb(clr);
        let mut bb = knights;
        let mut found = false;
        let ghost mut lo: int = 0;
        while bb != 0
            invariant_except_break
                forall|i: u64| i < 64 ==> #[trigger] has_bit(bb, i) == (has_bit(knights, i) && i >= lo),
                forall|i: u64| i < lo && #[trigger] has_bit(knights, i) ==> !outpost_reach(b0, clr, i as int),
                *self == b0,
                !found,
            invariant
                clr < 2,
                knights == b0.bitboard[KNIGHT + clr],
                outposts == b0.eval.outpost[clr as int],
                own == b0.bitboard[clr as int],
                0 <= lo <= 64,
                half_room(&b0, clr as int),
            ensures
                found ==> score_added(&b0, self, clr as int, (31, 22))
                    && exists|s: u64| s < 64 && #[trigger] has_bit(knights, s) && outpost_reach(b0, clr, s as int),
                !found ==> *self == b0 && bb == 0
                    && (forall|i: u64| i < 64 ==> #[trigger] has_bit(bb, i) == (has_bit(knights, i) && i >= lo))
                    && forall|i: u64| i < lo && #[trigger] has_bit(knights, i) ==> !outpost_reach(b0, clr, i as int),
            decreases bb,
        {
            let ghost before = bb;
            let sq = bb.pop_lsb();
            proof {
                assert(has_bit(before, sq as u64));
                assert forall|i: u64| lo <= i < sq as int implies !#[trigger] has_bit(knights, i) by {
                    assert(!has_bit(before, i));
                }
            }
            let m = self.x_ray_mask(KNIGHT + clr, sq);
            let reachable = outposts & m & !own;
            proof {
                lemma_bit_ops(outposts, m);
                lemma_bit_ops(outposts & m, !own);
                lemma_bit_ops(own, own);
                assert(outpost_reach_bits(reachable, b0, clr, sq as int));
                let y = choose|y: u64| #[trigger] outpost_reach_bits(y, b0, clr, sq as int);
                lemma_bits_ext(reachable, y);
            }
            if !outposts.is_set(sq) && reachable > 0 {
                self.sum(clr, Some(sq), Some(KNIGHT + clr), (31, 22));
                found = true;
                break;
            }
            proof {
                lo = sq as int + 1;
            }
        }
        proof {
            if !found {
                lemma_bit_consts();
                assert forall|s: u64| s < 64 && #[trigger] has_bit(knights, s) implies !outpost_reach(b0, clr, s as int) by {
                    assert(!has_bit(bb, s));
                    assert(s < lo);
                }
            }
        }
        let kn = knights & outposts;
        let n = kn.count();
        proof {
            lemma_count_bits_bound(kn, 64);
        }
        let bonus = n as isize;
        self.sum(clr, None, Some(KNIGHT + clr), (bonus * 56, bonus * 36));
        let bi = self.bishop_bb(clr) & outposts;
        let n = bi.count();
        proof {
            lemma_count_bits_bound(bi, 64);
        }
        let bonus = n as isize;
        self.sum(clr, None, Some(BISHOP + clr), (bonus * 30, bonus * 23));
    }

    fn trapped_rook(&mut self, clr: Color)
        ensures
            score_added(&*old(self), &*final(self), clr as int,
                sq_sum(old(self).bitboard[ROOK + clr] & !old(self).eval.open_file[clr as int], trapped_rook_term(*old(self), clr), 64)),
    {
        let ghost b0 = *self;
        let ghost f = trapped_rook_term(b0, clr);
        let mut bb = self.rook_bb(clr) & !self.eval.open_file[clr as usize];
        let ghost orig = bb;
        let king = self.king_sq(clr);
        let king_file = get_file(king);
        proof {
            let kb = b0.bitboard[KING + clr];
            if kb != 0 {
                lemma_lowest_is(kb, king as int);
            }
            assert(king_file == king_file_of(&b0, clr));
            assert forall|s: int| 0 <= s < 64 implies -110 <= #[trigger] f(s).0 <= 110 && -110 <= f(s).1 <= 110 by {
            }
        }
        let ghost mut lo: int = 0;
        while bb != 0
            invariant
                clr < 2,
                orig == b0.bitboard[ROOK + clr] & !b0.eval.open_file[clr as int],
                f == trapped_rook_term(b0, clr),
                king_file == king_file_of(&b0, clr),
                0 <= lo <= 64,
                half_room(&b0, clr as int),
                forall|s: int| 0 <= s < 64 ==> -110 <= #[trigger] f(s).0 <= 110 && -110 <= f(s).1 <= 110,
                forall|i: u64| i < 64 ==> #[trigger] has_bit(bb, i) == (has_bit(orig, i) && i >= lo),
                score_added(&b0, self, clr as int, sq_sum(orig, f, lo)),
            decreases bb,
        {
            let ghost before = bb;
            let sq = bb.pop_lsb();
            proof {
                assert(has_bit(before, sq as u64));
                assert forall|i: u64| lo <= i < sq as int implies !#[trigger] has_bit(orig, i) by {
                    assert(!has_bit(before, i));
                }
                lemma_sq_sum_skip(orig, f, lo, sq as int);
                lemma_sq_sum_bound(orig, f, 110, sq as int);
            }
            let m = self.x_ray_mask(ROOK + clr, sq);
            proof {
                let y = choose|y: u64| #[trigger] rook_reach_bits(y, b0, clr, sq as int);
                assert(rook_reach_bits(m, b0, clr, sq as int));
                lemma_bits_ext(m, y);
            }
            if m.count() <= 3 && ((king_file < 4) == (get_file(sq) < king_file)) {
                let mut castling: isize = 2;
                if self.state.castling.long(clr) != 0 || self.state.castling.short(clr) != 0 {
                    castling = 1;
                }
                self.sum(clr, Some(sq), Some(ROOK + clr), (-55 * castling, -13 * castling));
            }
            proof {
                lo = sq as int + 1;
            }
        }
        proof {
            lemma_bit_consts();
            assert forall|i: u64| lo <= i < 64 implies !#[trigger] has_bit(orig, i) by {
                assert(!has_bit(bb, i));
            }
            lemma_sq_sum_skip(orig, f, lo, 64);
        }
    }

    fn rook_on_queen_file(&mut self, clr: Color)
        ensures
            score_added(&*old(self), &*final(self), clr as int, sq_sum(old(self).bitboard[ROOK + clr], rook_queen_file(*old(self)), 64)),
    {
        let ghost b0 = *self;
        let ghost f = rook_queen_file(b0);
        let all_queens = self.queen_bb(clr) | self.queen_bb(1 - clr);
        proof {
            assert forall|s: int| 0 <= s < 64 implies -11 <= #[trigger] f(s).0 <= 11 && -11 <= f(s).1 <= 11 by {}
            if clr == WHITE {
                assert(all_queens == b0.bitboard[QUEEN + 0] | b0.bitboard[QUEEN + 1]);
            } else {
                let a = b0.bitboard[QUEEN + 1];
                let z = b0.bitboard[QUEEN + 0];
                assert(a | z == z | a) by (bit_vector);
            }
        }
        let mut bb = self.rook_bb(clr);
        let ghost orig = b0.bitboard[ROOK + clr];
        let ghost mut lo: int = 0;
        while bb != 0
            invariant
                clr < 2,
                orig == b0.bitboard[ROOK + clr],
                f == rook_queen_file(b0),
                all_queens == b0.bitboard[QUEEN + 0] | b0.bitboard[QUEEN + 1],
                0 <= lo <= 64,
                half_room(&b0, clr as int),
                forall|s: int| 0 <= s < 64 ==> -11 <= #[trigger] f(s).0 <= 11 && -11 <= f(s).1 <= 11,
                forall|i: u64| i < 64 ==> #[trigger] has_bit(bb, i) == (has_bit(orig, i) && i >= lo),
                score_added(&b0, self, clr as int, sq_sum(orig, f, lo)),
            decreases bb,
        {
            let ghost before = bb;
            let sq = bb.pop_lsb();
            proof {
                assert(has_bit(before, sq as u64));
                assert forall|i: u64| lo <= i < sq as int implies !#[trigger] has_bit(orig, i) by {
                    assert(!has_bit(before, i));
                }
                lemma_sq_sum_skip(orig, f, lo, sq as int);
                lemma_sq_sum_bound(orig, f, 11, sq as int);
            }
            let file = crate::bits::file_bitboard(sq % 8);
            proof {
                lemma_meets(file, all_queens);
                if file & all_queens != 0 {
                    let t = choose|t: u64| t < 64 && #[trigger] has_bit(all_queens, t) && has_bit(file, t);
                    assert(queen_on_file(&b0, sq as int));
                }
                if queen_on_file(&b0, sq as int) {
                    let t = choose|t: u64| t < 64 && t % 8 == sq as int % 8 && #[trigger] has_bit(b0.bitboard[QUEEN + 0] | b0.bitboard[QUEEN + 1], t);
                    assert(has_bit(file, t));
                }
            }
            if file & all_queens != 0 {
                self.sum(clr, Some(sq), Some(ROOK), (6, 11));
            }
            proof {
                lo = sq as int + 1;
            }
        }
        proof {
            lemma_bit_consts();
            assert forall|i: u64| lo <= i < 64 implies !#[trigger] has_bit(orig, i) by {
                assert(!has_bit(bb, i));
            }
            lemma_sq_sum_skip(orig, f, lo, 64);
        }
    }

    fn bishop_pawns(&mut self, clr: Color) -> (r: isize)
        ensures
            r == bishop_pawns_of(&*old(self), clr),
            *final(self) == *old(self),
    {
        let ghost b0 = *self;
        let pawns = self.pawn_bb(clr);
        let occ = self.occ_bb(clr) | self.occ_bb(1 - clr);
        let fwd = get_all_pawn_forward_mask(pawns, clr);
        let blocked1 = fwd & occ & CENTER_FILES;
        let blocked = get_all_pawn_forward_mask(blocked1, 1 - clr);
        proof {
            lemma_bit_ops(fwd, occ);
            lemma_bit_ops(fwd & occ, CENTER_FILES);
            assert(occ == b0.bitboard[0] | b0.bitboard[1] || occ == b0.bitboard[1] | b0.bitboard[0]);
            let z = b0.bitboard[0];
            let o = b0.bitboard[1];
            assert(o | z == z | o) by (bit_vector);
            assert forall|t: u64| t < 64 implies #[trigger] has_bit(CENTER_FILES, t) == (2 <= t % 8 <= 5) by {
                crate::bits::lemma_center_files(t);
            }
            assert forall|t: u64| t < 64 implies #[trigger] has_bit(blocked, t) == (has_bit(b0.bitboard[PAWN + clr], t) && 0 <= front_of(clr, t as int) < 64
                && has_bit(b0.bitboard[0] | b0.bitboard[1], front_of(clr, t as int) as u64) && 2 <= t % 8 <= 5) by {
                if 0 <= front_of(clr, t as int) < 64 {
                    let u = front_of(clr, t as int) as u64;
                    assert(has_bit(blocked1, u) == (has_bit(fwd, u) && has_bit(occ, u) && has_bit(CENTER_FILES, u)));
                    assert(u % 8 == t % 8);
                }
            }
            assert(blocked_center_bits(blocked, &b0, clr));
            let x = choose|x: u64| #[trigger] blocked_center_bits(x, &b0, clr);
            lemma_bits_ext(x, blocked);
            lemma_count_bits_bound(blocked, 64);
        }
        let nblocked = blocked.count();
        let mut score: usize = 0;
        let squares: [u64; 2] = [WHITE_SQUARES, BLACK_SQUARES];
        let mut i: usize = 0;
        while i < 2
            invariant
                i <= 2,
                clr < 2,
                *self == b0,
                squares@ == seq![WHITE_SQUARES, BLACK_SQUARES],
                nblocked == popcount(choose|x: u64| #[trigger] blocked_center_bits(x, &b0, clr)),
                nblocked <= 64,
                score == (if i >= 1 { bishop_pawns_part(&b0, clr, WHITE_SQUARES, nblocked as int) } else { 0 })
                    + (if i >= 2 { bishop_pawns_part(&b0, clr, BLACK_SQUARES, nblocked as int) } else { 0 }),
                score <= i * 266240,
            decreases 2 - i,
        {
            let sqs = squares[i];
            let bishops_on_sq = self.bishop_bb(clr) & sqs;
            let pawns_on_sq = self.pawn_bb(clr) & sqs;
            let att_bishops: usize = if self.eval.attacked_by[(PAWN + clr) as usize] & bishops_on_sq > 0 { 0 } else { 1 };
            let np = pawns_on_sq.count();
            let nb = bishops_on_sq.count();
            proof {
                lemma_count_bits_bound(pawns_on_sq, 64);
                lemma_count_bits_bound(bishops_on_sq, 64);
                assert(nblocked * nb <= 64 * 64) by (nonlinear_arith)
                    requires
                        nblocked <= 64,
                        nb <= 64,
                ;
                assert(att_bishops * nb <= 64) by (nonlinear_arith)
                    requires
                        att_bishops <= 1,
                        nb <= 64,
                ;
                assert(np * (nblocked * nb + att_bishops * nb) <= 64 * (64 * 64 + 64)) by (nonlinear_arith)
                    requires
                        np <= 64,
                        nblocked * nb + att_bishops * nb <= 64 * 64 + 64,
                ;
            }
            score = score + np * (nblocked * nb + att_bishops * nb);
            assert(score <= (i + 1) * 266240);
            i = i + 1;
        }
        score as isize
    }

    fn queen_infaltration(&mut self, clr: Color) -> (r: isize)
        ensures
            r == popcount(old(self).bitboard[QUEEN + clr] & QUEEN_INFILTRATION[clr as int] & !old(self).eval.attacked_by[PAWN + 1 - clr]
                & !old(self).eval.pawn_att_span[1 - clr]),
            *final(self) == *old(self),
    {
        let bb = self.queen_bb(clr) & QUEEN_INFILTRATION[clr as usize] & !self.eval.attacked_by[(PAWN + 1 - clr) as usize]
            & !self.eval.pawn_att_span[(1 - clr) as usize];
        proof {
            lemma_count_bits_bound(bb, 64);
        }
        bb.count() as isize
    }

    fn rook_on_king_ring(&mut self, clr: Color) -> (r: isize)
        ensures
            r == sq_sum(old(self).bitboard[ROOK + clr] & !old(self).eval.king_att_count_pieces[clr as int], rook_ring(*old(self), clr), 64).0,
            *final(self) == *old(self),
    {
        let ghost b0 = *self;
        let ghost f = rook_ring(b0, clr);
        let ring = self.eval.king_ring[(1 - clr) as usize];
        let mut bb = self.rook_bb(clr) & !self.eval.king_att_count_pieces[clr as usize];
        let ghost orig = bb;
        proof {
            assert forall|s: int| 0 <= s < 64 implies -1 <= #[trigger] f(s).0 <= 1 && -1 <= f(s).1 <= 1 by {}
        }
        let mut count: usize = 0;
        let ghost mut lo: int = 0;
        while bb != 0
            invariant
                clr < 2,
                *self == b0,
                b0 == *old(self),
                ring == b0.eval.king_ring[1 - clr],
                f == rook_ring(b0, clr),
                0 <= lo <= 64,
                forall|s: int| 0 <= s < 64 ==> -1 <= #[trigger] f(s).0 <= 1 && -1 <= f(s).1 <= 1,
                forall|i: u64| i < 64 ==> #[trigger] has_bit(bb, i) == (has_bit(orig, i) && i >= lo),
                count == sq_sum(orig, f, lo).0,
            decreases bb,
        {
            let ghost before = bb;
            let sq = bb.pop_lsb();
            proof {
                assert(has_bit(before, sq as u64));
                assert forall|i: u64| lo <= i < sq as int implies !#[trigger] has_bit(orig, i) by {
                    assert(!has_bit(before, i));
                }
                lemma_sq_sum_skip(orig, f, lo, sq as int);
                lemma_sq_sum_bound(orig, f, 1, sq as int);
            }
            let rank = crate::bits::rank_bitboard(sq % 8);
            proof {
                lemma_meets(rank, ring);
                if rank & ring != 0 {
                    let t = choose|t: u64| t < 64 && #[trigger] has_bit(ring, t) && has_bit(rank, t);
                    assert(t / 8 == sq as int % 8 && has_bit(b0.eval.king_ring[1 - clr], t));
                }
                if exists|t: u64| t < 64 && t / 8 == sq as int % 8 && #[trigger] has_bit(b0.eval.king_ring[1 - clr], t) {
                    let t = choose|t: u64| t < 64 && t / 8 == sq as int % 8 && #[trigger] has_bit(b0.eval.king_ring[1 - clr], t);
                    assert(has_bit(rank, t));
                }
            }
            if rank & ring != 0 {
                count = count + 1;
            }
            proof {
                lo = sq as int + 1;
            }
        }
        proof {
            lemma_bit_consts();
            assert forall|i: u64| lo <= i < 64 implies !#[trigger] has_bit(orig, i) by {
                assert(!has_bit(bb, i));
            }
            lemma_sq_sum_skip(orig, f, lo, 64);
            lemma_sq_sum_bound(orig, f, 1, 64);
        }
        count as isize
    }

    fn bishop_on_king_ring(&mut self, clr: Color) -> (r: isize)
        ensures
            r == sq_sum(old(self).bitboard[BISHOP + clr] & !old(self).eval.king_att_count_pieces[clr as int], bishop_ring(*old(self), clr), 64).0,
            *final(self) == *old(self),
    {
        let ghost b0 = *self;
        let ghost f = bishop_ring(b0, clr);
        let ring = self.eval.king_ring[(1 - clr) as usize];
        let own_pawns = self.pawn_bb(clr);
        let opp_pawns = self.pawn_bb(1 - clr);
        let mut bb = self.bishop_bb(clr) & !self.eval.king_att_count_pieces[clr as usize];
        let ghost orig = bb;
        proof {
            assert forall|s: int| 0 <= s < 64 implies -1 <= #[trigger] f(s).0 <= 1 && -1 <= f(s).1 <= 1 by {}
        }
        let mut count: usize = 0;
        let ghost mut lo: int = 0;
        while bb != 0
            invariant
                clr < 2,
                *self == b0,
                b0 == *old(self),
                ring == b0.eval.king_ring[1 - clr],
                own_pawns == b0.bitboard[PAWN + clr],
                opp_pawns == b0.bitboard[PAWN + 1 - clr],
                f == bishop_ring(b0, clr),
                0 <= lo <= 64,
                forall|s: int| 0 <= s < 64 ==> -1 <= #[trigger] f(s).0 <= 1 && -1 <= f(s).1 <= 1,
                forall|i: u64| i < 64 ==> #[trigger] has_bit(bb, i) == (has_bit(orig, i) && i >= lo),
                count == sq_sum(orig, f, lo).0,
            decreases bb,
        {
            let ghost before = bb;
            let sq = bb.pop_lsb();
            proof {
                assert(has_bit(before, sq as u64));
                assert forall|i: u64| lo <= i < sq as int implies !#[trigger] has_bit(orig, i) by {
                    assert(!has_bit(before, i));
                }
                lemma_sq_sum_skip(orig, f, lo, sq as int);
                lemma_sq_sum_bound(orig, f, 1, sq as int);
            }
            let mask = get_bishop_mask(sq, own_pawns, opp_pawns, clr);
            proof {
                lemma_meets(mask, ring);
                let occ = b0.bitboard[PAWN + clr] | b0.bitboard[PAWN + 1 - clr];
                if mask & ring != 0 {
                    let t = choose|t: u64| t < 64 && #[trigger] has_bit(ring, t) && has_bit(mask, t);
                    assert(bishop_target(sq as int, occ, t as int) && has_bit(b0.eval.king_ring[1 - clr], t));
                }
                if exists|t: u64| t < 64 && bishop_target(sq as int, occ, t as int) && #[trigger] has_bit(b0.eval.king_ring[1 - clr], t) {
                    let t = choose|t: u64| t < 64 && bishop_target(sq as int, occ, t as int) && #[trigger] has_bit(b0.eval.king_ring[1 - clr], t);
                    assert(has_bit(mask, t));
                }
            }
            if mask & ring != 0 {
                count = count + 1;
            }
            proof {
                lo = sq as int + 1;
            }
        }
        proof {
            lemma_bit_consts();
            assert forall|i: u64| lo <= i < 64 implies !#[trigger] has_bit(orig, i) by {
                assert(!has_bit(bb, i));
            }
            lemma_sq_sum_skip(orig, f, lo, 64);
            lemma_sq_sum_bound(orig, f, 1, 64);
        }
        count as isize
    }

    fn bishop_xray_pawns(&mut self, clr: Color) -> (r: isize)
        ensures
            r == sq_sum(old(self).bitboard[BISHOP + clr], xray_pawns(*old(self), clr), 64).0,
            *final(self) == *old(self),
    {
        let ghost b0 = *self;
        let ghost f = xray_pawns(b0, clr);
        let their = self.pawn_bb(1 - clr);
        proof {
            assert forall|s: int| 0 <= s < 64 implies -64 <= #[trigger] f(s).0 <= 64 && -64 <= f(s).1 <= 64 by {
                let x = choose|x: u64| #[trigger] xray_bits(x, b0.bitboard[PAWN + 1 - clr], s);
                lemma_count_bits_bound(x, 64);
            }
        }
        let mut count: usize = 0;
        let mut bb = self.bishop_bb(clr);
        let ghost orig = b0.bitboard[BISHOP + clr];
        let ghost mut lo: int = 0;
        while bb != 0
            invariant
                clr < 2,
                *self == b0,
                b0 == *old(self),
                orig == b0.bitboard[BISHOP + clr],
                their == b0.bitboard[PAWN + 1 - clr],
                f == xray_pawns(b0, clr),
                0 <= lo <= 64,
                forall|s: int| 0 <= s < 64 ==> -64 <= #[trigger] f(s).0 <= 64 && -64 <= f(s).1 <= 64,
                forall|i: u64| i < 64 ==> #[trigger] has_bit(bb, i) == (has_bit(orig, i) && i >= lo),
                count == sq_sum(orig, f, lo).0,
            decreases bb,
        {
            let ghost before = bb;
            let sq = bb.pop_lsb();
            proof {
                assert(has_bit(before, sq as u64));
                assert forall|i: u64| lo <= i < sq as int implies !#[trigger] has_bit(orig, i) by {
                    assert(!has_bit(before, i));
                }
                lemma_sq_sum_skip(orig, f, lo, sq as int);
                lemma_sq_sum_bound(orig, f, 64, sq as int);
            }
            let m = get_bishop_mask(sq, 0, 0, clr);
            let x = m & their;
            proof {
                lemma_bit_ops(m, their);
                assert(0u64 | 0u64 == 0u64) by (bit_vector);
                assert(xray_bits(x, b0.bitboard[PAWN + 1 - clr], sq as int));
                let y = choose|y: u64| #[trigger] xray_bits(y, b0.bitboard[PAWN + 1 - clr], sq as int);
                lemma_bits_ext(x, y);
                lemma_count_bits_bound(x, 64);
                lemma_sq_sum_bound(orig, f, 64, sq as int + 1);
            }
            count = count + x.count();
            proof {
                lo = sq as int + 1;
            }
        }
        proof {
            lemma_bit_consts();
            assert forall|i: u64| lo <= i < 64 implies !#[trigger] has_bit(orig, i) by {
                assert(!has_bit(bb, i));
            }
            lemma_sq_sum_skip(orig, f, lo, 64);
            lemma_sq_sum_bound(orig, f, 64, 64);
        }
        count as isize
    }

    fn outpost(&mut self, clr: Color) -> (r: u64)
        ensures
            r == (old(self).bitboard[KNIGHT + clr] | old(self).bitboard[BISHOP + clr]) & old(self).eval.outpost[clr as int],
            *final(self) == *old(self),
    {
        (self.knight_bb(clr) | self.bishop_bb(clr)) & self.eval.outpost[clr as usize]
    }

    fn reachable_outpost(&mut self, clr: Color) -> (r: u64)
        ensures
            r == old(self).eval.outpost[clr as int] & !old(self).bitboard[clr as int] & (old(self).eval.attacked_by[KNIGHT + clr]
                | old(self).eval.attacked_by[BISHOP + clr]),
            *final(self) == *old(self),
    {
        let att = self.eval.attacked_by[(KNIGHT + clr) as usize] | self.eval.attacked_by[(BISHOP + clr) as usize];
        self.eval.outpost[clr as usize] & !self.occ_bb(clr) & att
    }

    fn minor_behind_pawn(&mut self, clr: Color) -> (r: isize)
        ensures
            r == minor_behind_count(old(self).bitboard, clr),
            *final(self) == *old(self),
    {
        let ghost bb = self.bitboard;
        let all_pawns = self.pawn_bb(clr) | self.pawn_bb(1 - clr);
        let minors = self.knight_bb(clr) | self.bishop_bb(clr);
        let behind = get_all_pawn_forward_mask(all_pawns, 1 - clr);
        let x = minors & behind;
        proof {
            lemma_bit_ops(minors, behind);
            assert(minor_behind_bits(x, bb, clr));
            let y = choose|y: u64| #[trigger] minor_behind_bits(y, bb, clr);
            lemma_bits_ext(x, y);
        }
        let n = x.count();
        proof {
            lemma_count_bits_bound(x, 64);
        }
        n as isize
    }
}

/// Some square of `bb` lies ahead of a pawn of `c` on `s`, on its own file.
pub open spec fn span_hits(c: u8, s: int, bb: u64) -> bool {
    exists|t: u64| t < 64 && forward_span_target(c, s, t as int) && #[trigger] has_bit(bb, t)
}

/// Some square of `bb` lies ahead of a pawn of `c` on `s`, on a file next to its own.
pub open spec fn lr_hits(c: u8, s: int, bb: u64) -> bool {
    exists|t: u64| t < 64 && forward_lr_target(c, s, t as int) && #[trigger] has_bit(bb, t)
}

/// The square in front of `s` for a pawn of `c`.
pub open spec fn front_of(c: u8, s: int) -> int {
    s + 8 * pawn_dir(c)
}

/// The rank of `s` counted from the side of `c`.
pub open spec fn rel_rank(c: u8, s: int) -> int {
    if c == WHITE {
        row_of(s)
    } else {
        7 - row_of(s)
    }
}

/// `x` holds the squares of `bb` that a pawn of `c` on `s` attacks.
pub open spec fn att_bits(x: u64, c: u8, s: int, bb: u64) -> bool {
    forall|t: u64| t < 64 ==> #[trigger] has_bit(x, t) == (pawn_att_target(c, s, t as int) && has_bit(bb, t))
}

/// The number of squares of `bb` that a pawn of `c` on `s` attacks.
pub open spec fn att_count(c: u8, s: int, bb: u64) -> int {
    popcount(choose|x: u64| #[trigger] att_bits(x, c, s, bb)) as int
}

/// A pawn of `our` supports the pawn of `c` on `s` and has its two squares ahead free of the
/// pawns `their`.
pub open spec fn supported_free(c: u8, s: int, our: u64, their: u64) -> bool {
    exists|s2: u64| s2 < 64 && pawn_att_target((1 - c) as u8, s, s2 as int) && #[trigger] has_bit(our, s2)
        && !has_bit(their, front_of(c, s2 as int) as u64) && !has_bit(their, front_of(c, front_of(c, s2 as int)) as u64)
}

/// The pawn of `c` on `s` is a candidate passed pawn: no own pawn ahead on its file; no
/// enemy pawn ahead on its file or the files next to it, or else none two squares further on
/// and none on its file from the square in front, and then either a free supporter when it
/// is blocked far up the board, or, when it is not blocked, enough support against the
/// enemy pawns that attack it and the square in front.
pub open spec fn candidate_passed_of(bb: [u64; 14], s: int, c: u8) -> bool {
    let our = bb[PAWN + c];
    let their = bb[PAWN + 1 - c];
    let one = front_of(c, s);
    let two = front_of(c, one);
    let back = s - 8 * pawn_dir(c);
    let blocked = has_bit(their, one as u64);
    if span_hits(c, s, our) {
        false
    } else if !span_hits(c, s, their) && !lr_hits(c, s, their) {
        true
    } else if (0 <= two < 64 && lr_hits(c, two, their)) || span_hits(c, one, their) {
        false
    } else if !lr_hits(c, back, their) && blocked && rel_rank(c, s) > 3 && supported_free(c, s, our, their) {
        true
    } else if blocked {
        false
    } else {
        let lever = att_count(c, s, their);
        let leverpush = att_count(c, one, their);
        let phalanx = att_count(c, back, our);
        let supported = att_count((1 - c) as u8, s, our);
        lever <= supported + 1 && leverpush <= phalanx && !(lever > 0 && leverpush > 0)
    }
}

/// A bitboard is not zero exactly when it holds a square.
proof fn lemma_nonzero_iff(x: u64)
    ensures
        (x != 0) == (exists|t: u64| t < 64 && #[trigger] has_bit(x, t)),
{
    lemma_bit_consts();
    if x != 0 {
        lemma_nonzero_has_bit(x);
    }
}

/// The number of squares of `bb` a pawn of `c` on `s` attacks.
fn pawn_att_count(c: Color, s: usize, bb: u64) -> (r: usize)
    requires
        s < 64,
    ensures
        r == att_count(c, s as int, bb),
        r <= 64,
{
    let m = get_pawn_att_mask(s, 0, 0, c);
    let x = m & bb;
    proof {
        lemma_bit_ops(m, bb);
        assert(att_bits(x, c, s as int, bb));
        let y = choose|y: u64| #[trigger] att_bits(y, c, s as int, bb);
        lemma_bits_ext(x, y);
        lemma_count_bits_bound(x, 64);
    }
    x.count()
}

/// Whether a bitboard ahead of a pawn holds a square of `bb`, by the bitboard of the squares
/// ahead.
proof fn lemma_meets(m: u64, bb: u64)
    ensures
        (m & bb != 0) == (exists|t: u64| t < 64 && #[trigger] has_bit(bb, t) && has_bit(m, t)),
{
    lemma_bit_ops(m, bb);
    lemma_nonzero_iff(m & bb);
    if m & bb != 0 {
        let t = choose|t: u64| t < 64 && #[trigger] has_bit(m & bb, t);
        assert(has_bit(bb, t) && has_bit(m, t));
    }
    if exists|t: u64| t < 64 && #[trigger] has_bit(bb, t) && has_bit(m, t) {
        let t = choose|t: u64| t < 64 && #[trigger] has_bit(bb, t) && has_bit(m, t);
        assert(has_bit(m & bb, t));
    }
}

/// The distance of the file of `s` to the nearest edge file.
pub open spec fn passed_file_of(s: int) -> int {
    let f = col_of(s);
    if f < 7 - f {
        f
    } else {
        7 - f
    }
}

/// The bonus of the pawn of `c` on `s` for the way ahead of it: nothing below the fourth rank
/// or when the square in front is occupied; else a weight growing with the rank times a
/// factor for how safe the squares ahead are and whether the square in front is defended.
pub open spec fn passed_blocked_of(b: &Board, s: int, c: u8) -> int {
    let o = (1 - c) as u8;
    let r = rel_rank(c, s);
    let one = front_of(c, s);
    let occ = b.bitboard[c as int] | b.bitboard[o as int];
    if r <= 2 || has_bit(occ, one as u64) {
        0
    } else {
        let weight = 5 * r - 13;
        let d = b.eval.defend_map[c as int] | b.eval.attack_map[c as int];
        let u = b.eval.defend_map[o as int] | b.eval.attack_map[o as int];
        let own_heavy_behind = span_hits(o, s, b.bitboard[QUEEN + c] | b.bitboard[ROOK + c]);
        let opp_heavy_behind = span_hits(o, s, b.bitboard[QUEEN + o] | b.bitboard[ROOK + o]);
        let defended1 = has_bit(d, one as u64) || own_heavy_behind;
        let unsafe_none = !span_hits(c, s, u) && !opp_heavy_behind;
        let unsafe1 = has_bit(u, one as u64) || opp_heavy_behind;
        let wunsafe_none = !lr_hits(c, s, u);
        let k = if unsafe_none && wunsafe_none {
            35int
        } else if unsafe_none {
            20int
        } else if !unsafe1 {
            9int
        } else {
            0int
        };
        (k + if defended1 { 5int } else { 0int }) * weight
    }
}

/// The king distance of `c`'s king to `sq`, as `king_dist` measures it.
pub open spec fn king_dist_of(b: &Board, c: u8, sq: int) -> int {
    let kb = b.bitboard[KING + c];
    let k = if kb == 0 { 64 } else { lowest_sq(kb) };
    let dr = if k / 8 >= sq / 8 { k / 8 - sq / 8 } else { sq / 8 - k / 8 };
    let df = if k % 8 >= sq % 8 { k % 8 - sq % 8 } else { sq % 8 - k % 8 };
    if dr >= df { dr } else { df }
}

/// `x` capped at five.
pub open spec fn min5(x: int) -> int {
    if x < 5 {
        x
    } else {
        5
    }
}

/// The end game bonus of the pawn of `c` on `s` for the kings' distances to the square in
/// front of it: the enemy king far, the own king near; nothing below the fourth rank.
pub open spec fn king_proximity_of(b: &Board, s: int, c: u8) -> int {
    let r = rel_rank(c, s);
    if r <= 2 {
        0
    } else {
        let weight = 5 * r - 13;
        let f = front_of(c, s);
        let theirs = min5(king_dist_of(b, (1 - c) as u8, f));
        let ours = min5(king_dist_of(b, c, f));
        theirs * 19 / 4 * weight - ours * 2 * weight - if r != 6 { ours * weight } else { 0 }
    }
}

/// The candidate passed pawn of `c` on `s` can advance: it is not blocked, or a supporter
/// can push to the square next to it, which is empty and not more attacked than defended.
pub open spec fn leverable_of(b: &Board, s: int, c: u8) -> bool {
    let o = (1 - c) as u8;
    let our = b.bitboard[PAWN + c];
    let their = b.bitboard[PAWN + o];
    &&& candidate_passed_of(b.bitboard, s, c)
    &&& (!has_bit(their, front_of(c, s) as u64) || exists|s2: u64| s2 < 64 && pawn_att_target(o, s, s2 as int) && #[trigger] has_bit(our, s2)
        && !has_bit(b.bitboard[o as int], front_of(c, s2 as int) as u64) && (has_bit(b.eval.attack_map[c as int], front_of(c, s2 as int) as u64)
        || !has_bit(b.eval.attacked_by_2[o as int], front_of(c, s2 as int) as u64)))
}

/// The bonus of a passed pawn by its rank, for each side.
pub const PASSED_PAWN_REW: [[(isize, isize); 8]; 2] = [
    [(0, 0), (10, 28), (17, 33), (15, 41), (62, 72), (168, 177), (276, 260), (0, 0)],
    [(0, 0), (276, 260), (168, 177), (62, 72), (15, 41), (17, 33), (10, 28), (0, 0)],
];

/// What the pawn of `c` on `s` adds to the passed pawn term: when it is a candidate passed
/// pawn that can advance, the bonus of its rank, the kings' proximity, the way ahead and the
/// file penalty.
pub open spec fn passed_term(b: &Board, c: u8, s: int) -> (int, int) {
    if leverable_of(b, s, c) {
        let kp = king_proximity_of(b, s, c);
        let rew = PASSED_PAWN_REW[c as int][row_of(s)];
        let pb = passed_blocked_of(b, s, c);
        let pf = passed_file_of(s);
        (rew.0 + pb - 11 * pf, kp + rew.1 + pb - 8 * pf)
    } else {
        (0, 0)
    }
}

/// The passed pawn terms of the pawns of `c` on the squares below `n`.
pub open spec fn passed_prefix(b: &Board, c: u8, n: int) -> (int, int)
    decreases n,
{
    if n <= 0 {
        (0, 0)
    } else {
        let p = passed_prefix(b, c, n - 1);
        if has_bit(b.bitboard[PAWN + c], (n - 1) as u64) {
            let v = passed_term(b, c, n - 1);
            (p.0 + v.0, p.1 + v.1)
        } else {
            p
        }
    }
}

/// The squares without a pawn of `c` add nothing.
proof fn lemma_passed_skip(b: &Board, c: u8, lo: int, hi: int)
    requires
        0 <= lo <= hi <= 64,
        forall|i: u64| lo <= i < hi ==> !#[trigger] has_bit(b.bitboard[PAWN + c], i),
    ensures
        passed_prefix(b, c, hi) == passed_prefix(b, c, lo),
    decreases hi - lo,
{
    if hi > lo {
        lemma_passed_skip(b, c, lo, hi - 1);
        assert(!has_bit(b.bitboard[PAWN + c], (hi - 1) as u64));
    }
}

/// Each passed pawn term lies within 1500 of zero.
proof fn lemma_passed_term_bound(b: &Board, c: u8, s: int)
    requires
        c < 2,
        0 <= s < 64,
        1 <= row_of(s) <= 6,
    ensures
        -1500 <= passed_term(b, c, s).0 <= 1500,
        -1500 <= passed_term(b, c, s).1 <= 1500,
{
    if leverable_of(b, s, c) {
        let r = rel_rank(c, s);
        assert(PASSED_PAWN_REW[0][1] == (10isize, 28isize));
        assert(PASSED_PAWN_REW[0][2] == (17isize, 33isize));
        assert(PASSED_PAWN_REW[0][3] == (15isize, 41isize));
        assert(PASSED_PAWN_REW[0][4] == (62isize, 72isize));
        assert(PASSED_PAWN_REW[0][5] == (168isize, 177isize));
        assert(PASSED_PAWN_REW[0][6] == (276isize, 260isize));
        assert(PASSED_PAWN_REW[1][1] == (276isize, 260isize));
        assert(PASSED_PAWN_REW[1][2] == (168isize, 177isize));
        assert(PASSED_PAWN_REW[1][3] == (62isize, 72isize));
        assert(PASSED_PAWN_REW[1][4] == (15isize, 41isize));
        assert(PASSED_PAWN_REW[1][5] == (17isize, 33isize));
        assert(PASSED_PAWN_REW[1][6] == (10isize, 28isize));
        let rew = PASSED_PAWN_REW[c as int][row_of(s)];
        assert(0 <= rew.0 <= 276 && 0 <= rew.1 <= 260);
        if r > 2 {
            let weight = 5 * r - 13;
            assert(2 <= weight <= 17);
            let f = front_of(c, s);
            let theirs = min5(king_dist_of(b, (1 - c) as u8, f));
            let ours = min5(king_dist_of(b, c, f));
            assert(0 <= theirs <= 5 && 0 <= ours <= 5);
            assert(0 <= theirs * 19 / 4 * weight <= 23 * 17) by (nonlinear_arith)
                requires
                    0 <= theirs <= 5,
                    2 <= weight <= 17,
            ;
            assert(0 <= ours * 2 * weight <= 170 && 0 <= ours * weight <= 85) by (nonlinear_arith)
                requires
                    0 <= ours <= 5,
                    2 <= weight <= 17,
            ;
            lemma_blocked_bound(b, s, c);
        }
        lemma_blocked_bound(b, s, c);
    }
}

/// The bonus for the way ahead lies between 0 and 680 below the last rank.
proof fn lemma_blocked_bound(b: &Board, s: int, c: u8)
    requires
        c < 2,
        0 <= s < 64,
        rel_rank(c, s) <= 6,
    ensures
        0 <= passed_blocked_of(b, s, c) <= 680,
{
    let o = (1 - c) as u8;
    let r = rel_rank(c, s);
    let one = front_of(c, s);
    let occ = b.bitboard[c as int] | b.bitboard[o as int];
    if !(r <= 2 || has_bit(occ, one as u64)) {
        let weight = 5 * r - 13;
        let d = b.eval.defend_map[c as int] | b.eval.attack_map[c as int];
        let u = b.eval.defend_map[o as int] | b.eval.attack_map[o as int];
        let own_heavy_behind = span_hits(o, s, b.bitboard[QUEEN + c] | b.bitboard[ROOK + c]);
        let opp_heavy_behind = span_hits(o, s, b.bitboard[QUEEN + o] | b.bitboard[ROOK + o]);
        let defended1 = has_bit(d, one as u64) || own_heavy_behind;
        let unsafe_none = !span_hits(c, s, u) && !opp_heavy_behind;
        let unsafe1 = has_bit(u, one as u64) || opp_heavy_behind;
        let wunsafe_none = !lr_hits(c, s, u);
        let k = if unsafe_none && wunsafe_none {
            35int
        } else if unsafe_none {
            20int
        } else if !unsafe1 {
            9int
        } else {
            0int
        };
        let kk = k + if defended1 { 5int } else { 0int };
        assert(0 <= kk <= 40);
        assert(2 <= weight <= 17);
        assert(0 <= kk * weight <= 680) by (nonlinear_arith)
            requires
                0 <= kk <= 40,
                2 <= weight <= 17,
        ;
        assert(passed_blocked_of(b, s, c) == kk * weight);
    }
}

/// The pawns of `c` stand between the second and the seventh rank.
pub open spec fn pawns_inside(b: &Board, c: u8) -> bool {
    forall|t: u64| t < 64 && #[trigger] has_bit(b.bitboard[PAWN + c], t) ==> 1 <= row_of(t as int) <= 6
}

/// The passed pawn terms below `n` lie within 1500 per square of zero.
proof fn lemma_passed_prefix_bound(b: &Board, c: u8, n: int)
    requires
        c < 2,
        0 <= n <= 64,
        pawns_inside(b, c),
    ensures
        -1500 * n <= passed_prefix(b, c, n).0 <= 1500 * n,
        -1500 * n <= passed_prefix(b, c, n).1 <= 1500 * n,
    decreases n,
{
    if n > 0 {
        lemma_passed_prefix_bound(b, c, n - 1);
        if has_bit(b.bitboard[PAWN + c], (n - 1) as u64) {
            lemma_passed_term_bound(b, c, n - 1);
        }
    }
}

pub trait PassedPawnEvalTrait {
    /// Whether the pawn of `clr` on `sq` is a candidate passed pawn.
    fn candidate_passed(&mut self, sq: usize, clr: Color) -> bool
        requires
            clr < 2,
            sq < 64,
            1 <= row_of(sq as int) <= 6,
    ;

    /// The distance of the file of `sq` to the nearest edge file.
    fn passed_file(&mut self, sq: usize) -> isize
        requires
            sq < 64,
    ;

    /// The bonus of the pawn of `clr` on `sq` for the way ahead of it.
    fn passed_blocked(&mut self, sq: usize, clr: Color) -> isize
        requires
            clr < 2,
            sq < 64,
            rel_rank(clr, sq as int) <= 6,
    ;

    /// The end game bonus of the pawn of `clr` on `sq` for the kings' distances to the square
    /// in front of it.
    fn king_proximity(&mut self, sq: usize, clr: Color) -> isize
        requires
            clr < 2,
            sq < 64,
            rel_rank(clr, sq as int) <= 6,
    ;

    /// The score of `clr` may take its passed pawn terms, and its pawns stand between the
    /// second and the seventh rank.
    spec fn passed_room(&self, clr: Color) -> bool;

    /// Adds to the score of `clr` the terms of its candidate passed pawns that can advance.
    fn passed_pawn(&mut self, clr: Color)
        requires
            clr < 2,
            old(self).passed_room(clr),
    ;

    /// Whether the pawn of `clr` on `sq` is a candidate passed pawn that can advance.
    fn passed_leverable(&mut self, sq: usize, clr: Color) -> bool
        requires
            clr < 2,
            sq < 64,
            1 <= row_of(sq as int) <= 6,
    ;
}

impl PassedPawnEvalTrait for Board {
    open spec fn passed_room(&self, clr: Color) -> bool {
        &&& -SCORE_LIMIT / 2 <= self.eval.score[clr as int].0 <= SCORE_LIMIT / 2
        &&& -SCORE_LIMIT / 2 <= self.eval.score[clr as int].1 <= SCORE_LIMIT / 2
        &&& pawns_inside(self, clr)
    }

    fn passed_pawn(&mut self, clr: Color)
        ensures
            score_added(&*old(self), &*final(self), clr as int, passed_prefix(&*old(self), clr, 64)),
    {
        let ghost b0 = *self;
        let piece = PAWN + clr;
        let ghost orig = b0.bitboard[PAWN + clr];
        let mut bb = self.pawn_bb(clr);
        let ghost mut lo: int = 0;
        proof {
            lemma_passed_prefix_bound(&b0, clr, 0);
        }
        while bb != 0
            invariant
                clr < 2,
                piece == PAWN + clr,
                orig == b0.bitboard[PAWN + clr],
                0 <= lo <= 64,
                b0.passed_room(clr),
                forall|i: u64| i < 64 ==> #[trigger] has_bit(bb, i) == (has_bit(orig, i) && i >= lo),
                score_added(&b0, self, clr as int, passed_prefix(&b0, clr, lo)),
            decreases bb,
        {
            let ghost before = bb;
            let sq = bb.pop_lsb();
            proof {
                assert(has_bit(before, sq as u64));
                assert forall|i: u64| lo <= i < sq as int implies !#[trigger] has_bit(b0.bitboard[PAWN + clr], i) by {
                    assert(!has_bit(before, i));
                }
                lemma_passed_skip(&b0, clr, lo, sq as int);
                lemma_passed_prefix_bound(&b0, clr, sq as int);
                lemma_passed_term_bound(&b0, clr, sq as int);
                assert(1 <= row_of(sq as int) <= 6);
            }
            let ghost cur = *self;
            proof {
                assert(leverable_of(&cur, sq as int, clr) == leverable_of(&b0, sq as int, clr));
                assert(king_proximity_of(&cur, sq as int, clr) == king_proximity_of(&b0, sq as int, clr));
                assert(passed_blocked_of(&cur, sq as int, clr) == passed_blocked_of(&b0, sq as int, clr));
            }
            if self.passed_leverable(sq, clr) {
                let king_proximity = self.king_proximity(sq, clr);
                let passed_block = self.passed_blocked(sq, clr);
                let passed_file = self.passed_file(sq);
                let rew = PASSED_PAWN_REW[clr as usize][sq / 8];
                proof {
                    lemma_blocked_bound(&b0, sq as int, clr);
                }
                self.sum(clr, Some(sq), Some(piece), (0, king_proximity));
                self.sum(clr, Some(sq), Some(piece), rew);
                self.sum(clr, Some(sq), Some(piece), (passed_block, passed_block));
                self.sum(clr, Some(sq), Some(piece), (-11 * passed_file, -8 * passed_file));
            }
            proof {
                lo = sq as int + 1;
            }
        }
        proof {
            crate::bits::lemma_bit_consts();
            assert forall|i: u64| lo <= i < 64 implies !#[trigger] has_bit(b0.bitboard[PAWN + clr], i) by {
                assert(!has_bit(bb, i));
            }
            lemma_passed_skip(&b0, clr, lo, 64);
        }
    }

    fn passed_file(&mut self, sq: usize) -> (r: isize)
        ensures
            r == passed_file_of(sq as int),
            *final(self) == *old(self),
    {
        let file = (sq % 8) as isize;
        if file < 7 - file { file } else { 7 - file }
    }

    fn passed_blocked(&mut self, sq: usize, clr: Color) -> (r: isize)
        ensures
            r == passed_blocked_of(&*old(self), sq as int, clr),
            *final(self) == *old(self),
    {
        let ghost b0 = *self;
        let opp = 1 - clr;
        let (own, enemy) = self.both_occ_bb(clr);
        let clr_rank: usize = if clr == WHITE { sq / 8 } else { 7 - sq / 8 };
        if clr_rank <= 2 {
            return 0;
        }
        let one: usize = if clr == WHITE { sq + 8 } else { sq - 8 };
        proof {
            assert(b0.bitboard[clr as int] | b0.bitboard[opp as int] == own | enemy);
        }
        if (own | enemy).is_set(one) {
            return 0;
        }
        let weight = (5 * clr_rank - 13) as isize;
        let forward = pawn_forward_span(clr, sq);
        let backward = pawn_forward_span(opp, sq);
        let forward_lr = forward_spans_lr(clr, sq);
        let d = self.eval.defend_map[clr as usize] | self.eval.attack_map[clr as usize];
        let u = self.eval.defend_map[opp as usize] | self.eval.attack_map[opp as usize];
        let unsafe_bb = forward & u;
        let wunsafe_bb = forward_lr & u;
        let own_heavy = self.queen_bb(clr) | self.rook_bb(clr);
        let opp_heavy = self.queen_bb(opp) | self.rook_bb(opp);
        proof {
            lemma_meets(forward, u);
            lemma_meets(forward_lr, u);
            lemma_meets(backward, own_heavy);
            lemma_meets(backward, opp_heavy);
            lemma_bit_ops(forward, d);
            assert(forward_span_target(clr, sq as int, one as int));
        }
        let mut is_defended1 = (forward & d).is_set(one);
        let mut is_unsafe1 = unsafe_bb.is_set(one);
        let mut unsafe_none = unsafe_bb == 0;
        if own_heavy & backward != 0 {
            is_defended1 = true;
        }
        if opp_heavy & backward != 0 {
            is_unsafe1 = true;
            unsafe_none = false;
        }
        proof {
            lemma_bit_ops(forward, u);
            lemma_bit_ops(own_heavy, backward);
            lemma_bit_ops(backward, own_heavy);
            assert(own_heavy & backward == backward & own_heavy) by (bit_vector);
            assert(opp_heavy & backward == backward & opp_heavy) by (bit_vector);
        }
        let mut k: isize = 0;
        if unsafe_none && wunsafe_bb == 0 {
            k = 35;
        } else if unsafe_none {
            k = 20;
        } else if !is_unsafe1 {
            k = 9;
        }
        if is_defended1 {
            k = k + 5;
        }
        proof {
            assert(0 <= k <= 40);
            assert(0 <= weight <= 22);
            assert(0 <= k * weight <= 880) by (nonlinear_arith)
                requires
                    0 <= k <= 40,
                    0 <= weight <= 22,
            ;
        }
        k * weight
    }

    #[verifier::rlimit(40)]
    fn king_proximity(&mut self, sq: usize, clr: Color) -> (r: isize)
        ensures
            r == king_proximity_of(&*old(self), sq as int, clr),
            *final(self) == *old(self),
    {
        let clr_rank: usize = if clr == WHITE { sq / 8 } else { 7 - sq / 8 };
        if clr_rank <= 2 {
            return 0;
        }
        let weight = (5 * clr_rank - 13) as isize;
        let front: usize = if clr == WHITE { sq + 8 } else { sq - 8 };
        let ghost b0 = *self;
        let theirs_d = self.king_dist(1 - clr, front);
        let ours_d = self.king_dist(clr, front);
        proof {
            assert(theirs_d == king_dist_of(&b0, (1 - clr) as u8, front as int));
            assert(ours_d == king_dist_of(&b0, clr, front as int));
            assert(front as int == front_of(clr, sq as int));
        }
        let theirs = if theirs_d < 5 { theirs_d } else { 5 };
        let ours = if ours_d < 5 { ours_d } else { 5 };
        proof {
            assert(0 <= weight <= 22);
            assert(theirs <= 5 && ours <= 5);
            assert((theirs * 19 / 4) * weight <= 23 * 22) by (nonlinear_arith)
                requires
                    0 <= theirs <= 5,
                    0 <= weight <= 22,
            ;
            assert((theirs * 19 / 4) * weight >= 0) by (nonlinear_arith)
                requires
                    0 <= theirs <= 5,
                    0 <= weight <= 22,
            ;
            assert(ours * 2 * weight <= 10 * 22 && ours * 2 * weight >= 0) by (nonlinear_arith)
                requires
                    0 <= ours <= 5,
                    0 <= weight <= 22,
            ;
            assert(ours * weight <= 5 * 22 && ours * weight >= 0) by (nonlinear_arith)
                requires
                    0 <= ours <= 5,
                    0 <= weight <= 22,
            ;
        }
        let mut score: isize = 0;
        score = score + (theirs * 19 / 4) as isize * weight;
        score = score - (ours * 2) as isize * weight;
        if clr_rank != 6 {
            score = score - ours as isize * weight;
        }
        score
    }

    fn passed_leverable(&mut self, sq: usize, clr: Color) -> (r: bool)
        ensures
            r == leverable_of(&*old(self), sq as int, clr),
            *final(self) == *old(self),
    {
        let ghost b0 = *self;
        if !self.candidate_passed(sq, clr) {
            return false;
        }
        let opp = 1 - clr;
        let our = self.pawn_bb(clr);
        let their = self.pawn_bb(opp);
        let one: usize = if clr == WHITE { sq + 8 } else { sq - 8 };
        if !their.is_set(one) {
            return true;
        }
        let att = get_pawn_att_mask(sq, 0, 0, opp);
        let mut bb = att & our;
        proof {
            lemma_bit_ops(att, our);
        }
        let occ_opp = self.occ_bb(opp);
        let am = self.eval.attack_map[clr as usize];
        let a2 = self.eval.attacked_by_2[opp as usize];
        while bb != 0
            invariant
                sq < 64,
                clr < 2,
                opp == 1 - clr,
                1 <= row_of(sq as int) <= 6,
                *self == b0,
                b0 == *old(self),
                candidate_passed_of(b0.bitboard, sq as int, clr),
                has_bit(their, front_of(clr, sq as int) as u64),
                our == b0.bitboard[PAWN + clr],
                their == b0.bitboard[PAWN + opp],
                occ_opp == b0.bitboard[opp as int],
                am == b0.eval.attack_map[clr as int],
                a2 == b0.eval.attacked_by_2[opp as int],
                forall|t: u64| t < 64 ==> #[trigger] has_bit(att, t) == pawn_att_target(opp, sq as int, t as int),
                forall|t: u64| t < 64 && #[trigger] has_bit(bb, t) ==> has_bit(att, t) && has_bit(our, t),
                forall|t: u64| t < 64 && has_bit(att, t) && #[trigger] has_bit(our, t) && !has_bit(bb, t) ==> !(!has_bit(occ_opp, front_of(clr, t as int) as u64)
                    && (has_bit(am, front_of(clr, t as int) as u64) || !has_bit(a2, front_of(clr, t as int) as u64))),
            decreases bb,
        {
            let s2 = bb.pop_lsb();
            proof {
                assert(pawn_att_target(opp, sq as int, s2 as int));
            }
            let front: usize = if clr == WHITE { s2 + 8 } else { s2 - 8 };
            let is_occupied = occ_opp.is_set(front);
            let is_more_def = am.is_set(front) || !a2.is_set(front);
            if !is_occupied && is_more_def {
                proof {
                    assert(has_bit(our, s2 as u64));
                }
                return true;
            }
        }
        proof {
            lemma_bit_consts();
        }
        false
    }
    fn candidate_passed(&mut self, sq: usize, clr: Color) -> (r: bool)
        ensures
            r == candidate_passed_of(old(self).bitboard, sq as int, clr),
            *final(self) == *old(self),
    {
        let ghost bb = self.bitboard;
        let our = self.pawn_bb(clr);
        let their = self.pawn_bb(1 - clr);
        let forward = pawn_forward_span(clr, sq);
        let forward_lr = forward_spans_lr(clr, sq);
        proof {
            lemma_meets(forward, our);
            lemma_meets(forward, their);
            lemma_meets(forward_lr, their);
        }
        if forward & our != 0 {
            return false;
        }
        if forward & their == 0 && forward_lr & their == 0 {
            return true;
        }
        let one: usize = if clr == WHITE { sq + 8 } else { sq - 8 };
        let back: usize = if clr == WHITE { sq - 8 } else { sq + 8 };
        let two_ok = if clr == WHITE { one + 8 < 64 } else { one >= 8 };
        let far = if two_ok {
            let two: usize = if clr == WHITE { one + 8 } else { one - 8 };
            let lr2 = forward_spans_lr(clr, two);
            proof {
                lemma_meets(lr2, their);
            }
            lr2 & their != 0
        } else {
            false
        };
        let span1 = pawn_forward_span(clr, one);
        proof {
            lemma_meets(span1, their);
        }
        if far || span1 & their != 0 {
            return false;
        }
        let blocked = their.is_set(one);
        let lr_back = forward_spans_lr(clr, back);
        proof {
            lemma_meets(lr_back, their);
        }
        let rank: usize = if clr == WHITE { sq / 8 } else { 7 - sq / 8 };
        if lr_back & their == 0 && blocked && rank > 3 {
            let att = get_pawn_att_mask(sq, 0, 0, 1 - clr);
            let mut sup = att & our;
            proof {
                lemma_bit_ops(att, our);
                assert(candidate_passed_of(bb, sq as int, clr) == supported_free(clr, sq as int, our, their));
            }
            while sup != 0
                invariant
                    sq < 64,
                    clr < 2,
                    1 <= row_of(sq as int) <= 6,
                    rank == rel_rank(clr, sq as int),
                    rank > 3,
                    candidate_passed_of(bb, sq as int, clr) == supported_free(clr, sq as int, our, their),
                    bb == old(self).bitboard,
                    our == bb[PAWN + clr],
                    their == bb[PAWN + 1 - clr],
                    forall|t: u64| t < 64 ==> #[trigger] has_bit(att, t) == pawn_att_target((1 - clr) as u8, sq as int, t as int),
                    forall|t: u64| t < 64 && #[trigger] has_bit(sup, t) ==> has_bit(att, t) && has_bit(our, t),
                    forall|t: u64| t < 64 && has_bit(att, t) && #[trigger] has_bit(our, t) && !has_bit(sup, t) ==> !(!has_bit(their, front_of(clr, t as int) as u64)
                        && !has_bit(their, front_of(clr, front_of(clr, t as int)) as u64)),
                decreases sup,
            {
                let s2 = sup.pop_lsb();
                proof {
                    assert(pawn_att_target((1 - clr) as u8, sq as int, s2 as int));
                }
                let f1: usize = if clr == WHITE { s2 + 8 } else { s2 - 8 };
                let f2: usize = if clr == WHITE { s2 + 16 } else { s2 - 16 };
                if !their.is_set(f1) && !their.is_set(f2) {
                    proof {
                        assert(has_bit(our, s2 as u64));
                        assert(supported_free(clr, sq as int, our, their));
                    }
                    return true;
                }
            }
            proof {
                lemma_bit_consts();
                assert(!supported_free(clr, sq as int, our, their));
            }
        }
        if blocked {
            return false;
        }
        let lever = pawn_att_count(clr, sq, their);
        let leverpush = pawn_att_count(clr, one, their);
        let phalanx = pawn_att_count(clr, back, our);
        let supported = pawn_att_count(1 - clr, sq, our);
        if lever > supported + 1 {
            return false;
        }
        if leverpush > phalanx {
            return false;
        }
        if lever > 0 && leverpush > 0 {
            return false;
        }
        true
    }
}

/// Some pawn of `pawns` stands on a file next to that of `s`.
pub open spec fn neighbour_file_hits(s: int, pawns: u64) -> bool {
    exists|t: u64| t < 64 && (t % 8 == s % 8 + 1 || t % 8 == s % 8 - 1) && #[trigger] has_bit(pawns, t)
}

/// The squares of the files next to that of `sq`.
fn adjacent_files(sq: usize) -> (r: u64)
    requires
        sq < 64,
    ensures
        forall|t: u64| t < 64 ==> #[trigger] has_bit(r, t) == (t % 8 == sq % 8 + 1 || t % 8 == sq % 8 - 1),
{
    let col = sq % 8;
    let left: u64 = if col > 0 { crate::bits::file_bitboard(col - 1) } else { 0 };
    let right: u64 = if col < 7 { crate::bits::file_bitboard(col + 1) } else { 0 };
    proof {
        lemma_bit_consts();
        lemma_bit_ops(left, right);
    }
    left | right
}

/// The pawn of `c` on `s` has no own pawn beside or behind it on the files next to its own,
/// none that defends the square in front, and that square holds an enemy pawn or is attacked
/// by one.
pub open spec fn backward_of(b: Board, s: int, c: u8) -> bool {
    let our = b.bitboard[PAWN + c];
    let front = front_of(c, s);
    &&& !lr_hits((1 - c) as u8, s, our)
    &&& att_count((1 - c) as u8, front, our) == 0
    &&& (has_bit(b.bitboard[PAWN + 1 - c], front as u64) || has_bit(b.eval.attacked_by[PAWN + 1 - c], front as u64))
}

/// The pawn of `c` on `s` is defended, or an own pawn defends the square in front of it.
pub open spec fn connected_of(bb: [u64; 14], s: int, c: u8) -> bool {
    att_count((1 - c) as u8, s, bb[PAWN + c]) > 0 || att_count((1 - c) as u8, front_of(c, s), bb[PAWN + c]) > 0
}

/// The base of the bonus of a connected pawn on relative rank `r`.
pub open spec fn connected_seed(r: int) -> int {
    if r == 1 {
        7
    } else if r == 2 {
        8
    } else if r == 3 {
        12
    } else if r == 4 {
        29
    } else if r == 5 {
        48
    } else if r == 6 {
        86
    } else {
        0
    }
}

/// The bonus of the connected pawn of `c` on `s`: the rank's base, doubled, one more for a
/// phalanx and one less when opposed, and 21 for each defender.
pub open spec fn connected_bonus_of(bb: [u64; 14], s: int, c: u8) -> int {
    let our = bb[PAWN + c];
    let r = rel_rank(c, s);
    if !connected_of(bb, s, c) || r < 1 || r > 6 {
        0
    } else {
        let ph: int = if att_count((1 - c) as u8, front_of(c, s), our) > 0 { 1 } else { 0 };
        let op: int = if span_hits(c, s, bb[PAWN + 1 - c]) { 1 } else { 0 };
        connected_seed(r) * (2 + ph - op) + 21 * att_count((1 - c) as u8, s, our)
    }
}

/// The pawn of `c` on `s` is not opposed, and is isolated or backward.
pub open spec fn weak_unopposed_of(b: Board, s: int, c: u8) -> bool {
    !span_hits(c, s, b.bitboard[PAWN + 1 - c]) && (!neighbour_file_hits(s, b.bitboard[PAWN + c]) || backward_of(b, s, c))
}

/// For a pawn of `c` on its fifth or sixth rank whose way is blocked by an enemy pawn, how far
/// past its fourth rank it stands (1 or 2); otherwise 0.
pub open spec fn blocked_far_of(bb: [u64; 14], s: int, c: u8) -> int {
    let r = rel_rank(c, s);
    if (r == 4 || r == 5) && has_bit(bb[PAWN + 1 - c], front_of(c, s) as u64) {
        r - 3
    } else {
        0
    }
}

/// The base of the bonus of a connected pawn on relative rank `r`.
fn connected_seed_value(r: usize) -> (v: isize)
    ensures
        v == connected_seed(r as int),
{
    if r == 1 {
        7
    } else if r == 2 {
        8
    } else if r == 3 {
        12
    } else if r == 4 {
        29
    } else if r == 5 {
        48
    } else if r == 6 {
        86
    } else {
        0
    }
}

/// `x / 4`, rounded toward zero.
pub open spec fn quarter_toward_zero(x: int) -> int {
    if x >= 0 {
        x / 4
    } else {
        -((-x) / 4)
    }
}

/// What the pawn structure gives the pawn of `c` on `s`: the penalty for a doubled isolated,
/// an isolated or a backward pawn, the penalty for a doubled pawn, the connected bonus, the
/// penalties for a weak unopposed pawn and a weak lever, and the term for a pawn blocked on
/// its fifth or sixth rank.
pub open spec fn pawn_structure_term(b: Board, s: int, c: u8) -> (int, int) {
    let t1 = weakness_term(b, s, c);
    let t2 = doubled_term(b.bitboard, s, c);
    let t3 = connected_term(b.bitboard, s, c);
    let t4: (int, int) = if weak_unopposed_of(b, s, c) { (-13, -27) } else { (0, 0) };
    let t5 = lever_term(b.bitboard, s, c);
    let t6 = blocked_far_term(b.bitboard, s, c);
    (t1.0 + t2.0 + t3.0 + t4.0 + t5.0 + t6.0, t1.1 + t2.1 + t3.1 + t4.1 + t5.1 + t6.1)
}

/// The penalty for a doubled isolated pawn, else for an isolated one, else for a backward one.
pub open spec fn weakness_term(b: Board, s: int, c: u8) -> (int, int) {
    let our = b.bitboard[PAWN + c];
    let their = b.bitboard[PAWN + 1 - c];
    let iso = !neighbour_file_hits(s, our);
    if span_hits((1 - c) as u8, s, our) && span_hits(c, s, their) && iso && !neighbour_file_hits(s, their) {
        (-11, -56)
    } else if iso {
        (-5, -15)
    } else if backward_of(b, s, c) {
        (-9, -24)
    } else {
        (0, 0)
    }
}

/// The penalty for an undefended pawn with an own pawn right behind it.
pub open spec fn doubled_term(bb: [u64; 14], s: int, c: u8) -> (int, int) {
    let our = bb[PAWN + c];
    if has_bit(our, (s - 8 * pawn_dir(c)) as u64) && att_count((1 - c) as u8, s, our) == 0 {
        (-11, -56)
    } else {
        (0, 0)
    }
}

/// The connected bonus, in the end game scaled by the relative rank less two, over four.
pub open spec fn connected_term(bb: [u64; 14], s: int, c: u8) -> (int, int) {
    let cb = connected_bonus_of(bb, s, c);
    if connected_of(bb, s, c) {
        (cb, quarter_toward_zero(cb * (rel_rank(c, s) - 2)))
    } else {
        (0, 0)
    }
}

/// The penalty for a weak lever.
pub open spec fn lever_term(bb: [u64; 14], s: int, c: u8) -> (int, int) {
    if att_count((1 - c) as u8, s, bb[PAWN + c]) == 0 && att_count(c, s, bb[PAWN + 1 - c]) == 2 {
        (0, -56)
    } else {
        (0, 0)
    }
}

/// The term for a pawn blocked on its fifth or sixth rank.
pub open spec fn blocked_far_term(bb: [u64; 14], s: int, c: u8) -> (int, int) {
    let bf = blocked_far_of(bb, s, c);
    if bf == 1 {
        (-11, -4)
    } else if bf == 2 {
        (-3, 4)
    } else {
        (0, 0)
    }
}

/// The pawn structure terms of the pawns of `c` on the squares below `n`.
pub open spec fn pawn_structure_prefix(b: Board, c: u8, n: int) -> (int, int)
    decreases n,
{
    if n <= 0 {
        (0, 0)
    } else {
        let p = pawn_structure_prefix(b, c, n - 1);
        if has_bit(b.bitboard[PAWN + c], (n - 1) as u64) {
            let v = pawn_structure_term(b, n - 1, c);
            (p.0 + v.0, p.1 + v.1)
        } else {
            p
        }
    }
}

/// A pawn attacks at most all squares.
proof fn lemma_att_count_bound(c: u8, s: int, bb: u64)
    ensures
        0 <= att_count(c, s, bb) <= 64,
{
    let y = choose|y: u64| #[trigger] att_bits(y, c, s, bb);
    lemma_count_bits_bound(y, 64);
}

/// Each pawn structure term lies within 2000 of zero.
proof fn lemma_pawn_structure_bound(b: Board, s: int, c: u8)
    ensures
        -2000 <= pawn_structure_term(b, s, c).0 <= 2000,
        -2000 <= pawn_structure_term(b, s, c).1 <= 2000,
{
    let our = b.bitboard[PAWN + c];
    let r = rel_rank(c, s);
    lemma_att_count_bound((1 - c) as u8, s, our);
    let cb = connected_bonus_of(b.bitboard, s, c);
    if connected_of(b.bitboard, s, c) && 1 <= r <= 6 {
        let ph: int = if att_count((1 - c) as u8, front_of(c, s), our) > 0 { 1 } else { 0 };
        let op: int = if span_hits(c, s, b.bitboard[PAWN + 1 - c]) { 1 } else { 0 };
        let seed = connected_seed(r);
        let k = 2 + ph - op;
        assert(0 <= seed * k <= 258) by (nonlinear_arith)
            requires
                0 <= seed <= 86,
                1 <= k <= 3,
        ;
        assert(0 <= cb <= 1602);
        let x = cb * (r - 2);
        assert(-1602 <= x <= 6408) by (nonlinear_arith)
            requires
                0 <= cb <= 1602,
                -1 <= r - 2 <= 4,
                x == cb * (r - 2),
        ;
    }
}

/// The pawn structure terms below `n` lie within 2000 per square of zero.
proof fn lemma_pawn_structure_prefix_bound(b: Board, c: u8, n: int)
    requires
        0 <= n <= 64,
    ensures
        -2000 * n <= pawn_structure_prefix(b, c, n).0 <= 2000 * n,
        -2000 * n <= pawn_structure_prefix(b, c, n).1 <= 2000 * n,
    decreases n,
{
    if n > 0 {
        lemma_pawn_structure_prefix_bound(b, c, n - 1);
        if has_bit(b.bitboard[PAWN + c], (n - 1) as u64) {
            lemma_pawn_structure_bound(b, n - 1, c);
        }
    }
}

/// The squares without a pawn of `c` add nothing.
proof fn lemma_pawn_structure_skip(b: Board, c: u8, lo: int, hi: int)
    requires
        0 <= lo <= hi <= 64,
        forall|i: u64| lo <= i < hi ==> !#[trigger] has_bit(b.bitboard[PAWN + c], i),
    ensures
        pawn_structure_prefix(b, c, hi) == pawn_structure_prefix(b, c, lo),
    decreases hi - lo,
{
    if hi > lo {
        lemma_pawn_structure_skip(b, c, lo, hi - 1);
        assert(!has_bit(b.bitboard[PAWN + c], (hi - 1) as u64));
    }
}

pub trait PawnEvalTrait {
    /// The square in front of the pawn of `clr` on `sq` holds a piece of `bb`.
    fn blocked_pawn(&mut self, sq: usize, clr: Color, bb: u64) -> bool
        requires
            clr < 2,
            sq < 64,
            1 <= row_of(sq as int) <= 6,
    ;

    /// An enemy pawn stands ahead of the pawn of `clr` on `sq`, on its file.
    fn opposed_pawn(&mut self, sq: usize, clr: Color) -> bool
        requires
            clr < 2,
            sq < 64,
    ;

    /// No pawn of `clr` stands on the files next to that of `sq`.
    fn isolated_pawn(&mut self, sq: usize, clr: Color) -> bool
        requires
            clr < 2,
            sq < 64,
    ;

    /// The number of pawns of `clr` that defend the square `sq`.
    fn supported_pawn(&mut self, sq: usize, clr: Color) -> isize
        requires
            clr < 2,
            sq < 64,
    ;

    /// Some pawn of `clr` defends the square in front of the pawn of `clr` on `sq`.
    fn phalanx_pawn(&mut self, sq: usize, clr: Color) -> bool
        requires
            clr < 2,
            sq < 64,
            1 <= row_of(sq as int) <= 6,
    ;

    /// A pawn of `clr` stands right behind `sq` and none defends it.
    fn doubled_pawn(&mut self, sq: usize, clr: Color) -> bool
        requires
            clr < 2,
            sq < 64,
            1 <= row_of(sq as int) <= 6,
    ;

    /// The pawn of `clr` on `sq` is defended or has a pawn beside it.
    fn connected_pawn(&mut self, sq: usize, clr: Color) -> bool
        requires
            clr < 2,
            sq < 64,
            1 <= row_of(sq as int) <= 6,
    ;

    /// The pawn of `clr` on `sq` is undefended and attacks two enemy pawns.
    fn weak_lever(&mut self, sq: usize, clr: Color) -> bool
        requires
            clr < 2,
            sq < 64,
    ;

    /// The pawn of `clr` on `sq` has an own pawn behind it, is opposed, and both sides'
    /// pawns are isolated there.
    fn doubled_isolated_pawn(&mut self, sq: usize, clr: Color) -> bool
        requires
            clr < 2,
            sq < 64,
    ;
    /// Whether the pawn of `clr` on `sq` is backward.
    fn backward_pawn(&mut self, sq: usize, clr: Color) -> bool
        requires
            clr < 2,
            sq < 64,
            1 <= row_of(sq as int) <= 6,
    ;

    /// The bonus of the pawn of `clr` on `sq` for being connected.
    fn connected_bonus(&mut self, sq: usize, clr: Color) -> isize
        requires
            clr < 2,
            sq < 64,
            1 <= row_of(sq as int) <= 6,
    ;

    /// The pawn of `clr` on `sq` is unopposed and isolated or backward.
    fn weak_unopposed_pawn(&mut self, sq: usize, clr: Color) -> bool
        requires
            clr < 2,
            sq < 64,
            1 <= row_of(sq as int) <= 6,
    ;

    /// 1 or 2 for a pawn of `clr` blocked on its fifth or sixth rank, 0 otherwise.
    fn blocked_pawn_5th_6th_rank(&mut self, sq: usize, clr: Color) -> isize
        requires
            clr < 2,
            sq < 64,
            1 <= row_of(sq as int) <= 6,
    ;
    /// The scores lie within half the bound and the pawns of `clr` stand off the first and
    /// last ranks.
    spec fn pawn_room(&self, clr: Color) -> bool;

    /// The scores of `clr` lie within the bound.
    spec fn pawn_term_room(&self, clr: Color) -> bool;

    /// Adds the pawn structure terms of the pawn of `clr` on `sq` to the score of `clr`.
    fn single_pawn_eval(&mut self, sq: usize, clr: Color)
        requires
            clr < 2,
            sq < 64,
            1 <= row_of(sq as int) <= 6,
            old(self).pawn_term_room(clr),
    ;

    /// The penalty of the pawn of `clr` on `sq` for being doubled and isolated, isolated, or
    /// backward.
    fn weakness_value(&mut self, sq: usize, clr: Color) -> (isize, isize)
        requires
            clr < 2,
            sq < 64,
            1 <= row_of(sq as int) <= 6,
    ;

    /// The connected bonus of the pawn of `clr` on `sq`, for the middle and the end game.
    fn connected_value(&mut self, sq: usize, clr: Color) -> (isize, isize)
        requires
            clr < 2,
            sq < 64,
            1 <= row_of(sq as int) <= 6,
    ;

    /// Adds the pawn structure terms of every pawn of `clr` to the score of `clr`.
    fn pawns_eval(&mut self, clr: Color)
        requires
            clr < 2,
            old(self).pawn_room(clr),
    ;
}

impl PawnEvalTrait for Board {
    open spec fn pawn_room(&self, clr: Color) -> bool {
        &&& -SCORE_LIMIT / 2 <= self.eval.score[clr as int].0 <= SCORE_LIMIT / 2
        &&& -SCORE_LIMIT / 2 <= self.eval.score[clr as int].1 <= SCORE_LIMIT / 2
        &&& pawns_inside(self, clr)
    }

    open spec fn pawn_term_room(&self, clr: Color) -> bool {
        &&& -SCORE_LIMIT <= self.eval.score[clr as int].0 <= SCORE_LIMIT
        &&& -SCORE_LIMIT <= self.eval.score[clr as int].1 <= SCORE_LIMIT
    }

    fn single_pawn_eval(&mut self, sq: usize, clr: Color)
        ensures
            score_added(&*old(self), &*final(self), clr as int, pawn_structure_term(*old(self), sq as int, clr)),
    {
        let t1 = self.weakness_value(sq, clr);
        let t2: (isize, isize) = if self.doubled_pawn(sq, clr) { (-11, -56) } else { (0, 0) };
        let t3 = self.connected_value(sq, clr);
        let t4: (isize, isize) = if self.weak_unopposed_pawn(sq, clr) { (-13, -27) } else { (0, 0) };
        let t5: (isize, isize) = if self.weak_lever(sq, clr) { (0, -56) } else { (0, 0) };
        let blocked = self.blocked_pawn_5th_6th_rank(sq, clr);
        let t6: (isize, isize) = if blocked == 1 {
            (-11, -4)
        } else if blocked == 2 {
            (-3, 4)
        } else {
            (0, 0)
        };
        let mg = t1.0 + t2.0 + t3.0 + t4.0 + t5.0 + t6.0;
        let eg = t1.1 + t2.1 + t3.1 + t4.1 + t5.1 + t6.1;
        self.sum(clr, Some(sq), None, (mg, eg));
    }

    fn weakness_value(&mut self, sq: usize, clr: Color) -> (r: (isize, isize))
        ensures
            (r.0 as int, r.1 as int) == weakness_term(*old(self), sq as int, clr),
            *final(self) == *old(self),
    {
        if self.doubled_isolated_pawn(sq, clr) {
            (-11, -56)
        } else if self.isolated_pawn(sq, clr) {
            (-5, -15)
        } else if self.backward_pawn(sq, clr) {
            (-9, -24)
        } else {
            (0, 0)
        }
    }

    fn connected_value(&mut self, sq: usize, clr: Color) -> (r: (isize, isize))
        ensures
            (r.0 as int, r.1 as int) == connected_term(old(self).bitboard, sq as int, clr),
            0 <= r.0 <= 1602,
            -401 <= r.1 <= 1602,
            *final(self) == *old(self),
    {
        if !self.connected_pawn(sq, clr) {
            return (0, 0);
        }
        let calc_bonus = self.connected_bonus(sq, clr);
        let rank: isize = if clr == WHITE { (sq / 8) as isize } else { 7 - (sq / 8) as isize };
        assert(-1602 <= calc_bonus * (rank - 2) <= 6408) by (nonlinear_arith)
            requires
                0 <= calc_bonus <= 1602,
                -1 <= rank - 2 <= 4,
        ;
        let x = calc_bonus * (rank - 2);
        let q: isize = if x >= 0 { x / 4 } else { -((-x) / 4) };
        (calc_bonus, q)
    }

    fn pawns_eval(&mut self, clr: Color)
        ensures
            score_added(&*old(self), &*final(self), clr as int, pawn_structure_prefix(*old(self), clr, 64)),
    {
        let ghost b0 = *self;
        let ghost orig = b0.bitboard[PAWN + clr];
        let mut bb = self.pawn_bb(clr);
        let ghost mut lo: int = 0;
        proof {
            lemma_pawn_structure_prefix_bound(b0, clr, 0);
        }
        while bb != 0
            invariant
                clr < 2,
                orig == b0.bitboard[PAWN + clr],
                0 <= lo <= 64,
                b0.pawn_room(clr),
                forall|i: u64| i < 64 ==> #[trigger] has_bit(bb, i) == (has_bit(orig, i) && i >= lo),
                score_added(&b0, self, clr as int, pawn_structure_prefix(b0, clr, lo)),
            decreases bb,
        {
            let ghost before = bb;
            let sq = bb.pop_lsb();
            proof {
                assert(has_bit(before, sq as u64));
                assert forall|i: u64| lo <= i < sq as int implies !#[trigger] has_bit(b0.bitboard[PAWN + clr], i) by {
                    assert(!has_bit(before, i));
                }
                lemma_pawn_structure_skip(b0, clr, lo, sq as int);
                lemma_pawn_structure_prefix_bound(b0, clr, sq as int);
                lemma_pawn_structure_bound(b0, sq as int, clr);
                assert(1 <= row_of(sq as int) <= 6);
            }
            let ghost cur = *self;
            proof {
                assert(pawn_structure_term(cur, sq as int, clr) == pawn_structure_term(b0, sq as int, clr));
            }
            self.single_pawn_eval(sq, clr);
            proof {
                lo = sq as int + 1;
            }
        }
        proof {
            crate::bits::lemma_bit_consts();
            assert forall|i: u64| lo <= i < 64 implies !#[trigger] has_bit(b0.bitboard[PAWN + clr], i) by {
                assert(!has_bit(bb, i));
            }
            lemma_pawn_structure_skip(b0, clr, lo, 64);
        }
    }

    fn blocked_pawn(&mut self, sq: usize, clr: Color, bb: u64) -> (r: bool)
        ensures
            r == has_bit(bb, front_of(clr, sq as int) as u64),
            *final(self) == *old(self),
    {
        let front: usize = if clr == WHITE { sq + 8 } else { sq - 8 };
        bb.is_set(front)
    }

    fn opposed_pawn(&mut self, sq: usize, clr: Color) -> (r: bool)
        ensures
            r == span_hits(clr, sq as int, old(self).bitboard[PAWN + 1 - clr]),
            *final(self) == *old(self),
    {
        let span = pawn_forward_span(clr, sq);
        let their = self.pawn_bb(1 - clr);
        proof {
            lemma_meets(span, their);
        }
        span & their != 0
    }

    fn isolated_pawn(&mut self, sq: usize, clr: Color) -> (r: bool)
        ensures
            r == !neighbour_file_hits(sq as int, old(self).bitboard[PAWN + clr]),
            *final(self) == *old(self),
    {
        let files = adjacent_files(sq);
        let our = self.pawn_bb(clr);
        proof {
            lemma_meets(files, our);
        }
        files & our == 0
    }

    fn supported_pawn(&mut self, sq: usize, clr: Color) -> (r: isize)
        ensures
            r == att_count((1 - clr) as u8, sq as int, old(self).bitboard[PAWN + clr]),
            *final(self) == *old(self),
    {
        let our = self.pawn_bb(clr);
        pawn_att_count(1 - clr, sq, our) as isize
    }

    fn phalanx_pawn(&mut self, sq: usize, clr: Color) -> (r: bool)
        ensures
            r == (att_count((1 - clr) as u8, front_of(clr, sq as int), old(self).bitboard[PAWN + clr]) > 0),
            *final(self) == *old(self),
    {
        let front: usize = if clr == WHITE { sq + 8 } else { sq - 8 };
        let our = self.pawn_bb(clr);
        pawn_att_count(1 - clr, front, our) > 0
    }

    fn doubled_pawn(&mut self, sq: usize, clr: Color) -> (r: bool)
        ensures
            r == (has_bit(old(self).bitboard[PAWN + clr], (sq - 8 * pawn_dir(clr)) as u64)
                && att_count((1 - clr) as u8, sq as int, old(self).bitboard[PAWN + clr]) == 0),
            *final(self) == *old(self),
    {
        let back: usize = if clr == WHITE { sq - 8 } else { sq + 8 };
        let our = self.pawn_bb(clr);
        our.is_set(back) && pawn_att_count(1 - clr, sq, our) == 0
    }

    fn connected_pawn(&mut self, sq: usize, clr: Color) -> (r: bool)
        ensures
            r == (att_count((1 - clr) as u8, sq as int, old(self).bitboard[PAWN + clr]) > 0
                || att_count((1 - clr) as u8, front_of(clr, sq as int), old(self).bitboard[PAWN + clr]) > 0),
            *final(self) == *old(self),
    {
        self.supported_pawn(sq, clr) > 0 || self.phalanx_pawn(sq, clr)
    }

    fn weak_lever(&mut self, sq: usize, clr: Color) -> (r: bool)
        ensures
            r == (att_count((1 - clr) as u8, sq as int, old(self).bitboard[PAWN + clr]) == 0
                && att_count(clr, sq as int, old(self).bitboard[PAWN + 1 - clr]) == 2),
            *final(self) == *old(self),
    {
        let our = self.pawn_bb(clr);
        let their = self.pawn_bb(1 - clr);
        pawn_att_count(1 - clr, sq, our) == 0 && pawn_att_count(clr, sq, their) == 2
    }

    fn doubled_isolated_pawn(&mut self, sq: usize, clr: Color) -> (r: bool)
        ensures
            r == (span_hits((1 - clr) as u8, sq as int, old(self).bitboard[PAWN + clr]) && span_hits(clr, sq as int, old(self).bitboard[PAWN + 1 - clr])
                && !neighbour_file_hits(sq as int, old(self).bitboard[PAWN + clr]) && !neighbour_file_hits(sq as int, old(self).bitboard[PAWN + 1 - clr])),
            *final(self) == *old(self),
    {
        let behind = pawn_forward_span(1 - clr, sq);
        let our = self.pawn_bb(clr);
        proof {
            lemma_meets(behind, our);
        }
        behind & our != 0 && self.opposed_pawn(sq, clr) && self.isolated_pawn(sq, clr) && self.isolated_pawn(sq, 1 - clr)
    }
    fn backward_pawn(&mut self, sq: usize, clr: Color) -> (r: bool)
        ensures
            r == backward_of(*old(self), sq as int, clr),
            *final(self) == *old(self),
    {
        let front: usize = if clr == WHITE { sq + 8 } else { sq - 8 };
        let lr = forward_spans_lr(1 - clr, sq);
        let our = self.pawn_bb(clr);
        let their = self.pawn_bb(1 - clr);
        proof {
            lemma_meets(lr, our);
        }
        lr & our == 0 && pawn_att_count(1 - clr, front, our) == 0 && (self.blocked_pawn(sq, clr, their)
            || self.eval.attacked_by[(PAWN + 1 - clr) as usize].is_set(front))
    }

    fn connected_bonus(&mut self, sq: usize, clr: Color) -> (r: isize)
        ensures
            r == connected_bonus_of(old(self).bitboard, sq as int, clr),
            0 <= r <= 1602,
            *final(self) == *old(self),
    {
        if !self.connected_pawn(sq, clr) {
            return 0;
        }
        let r: usize = if clr == WHITE { sq / 8 } else { 7 - sq / 8 };
        if r < 1 || r > 6 {
            return 0;
        }
        let op = self.opposed_pawn(sq, clr);
        let ph = self.phalanx_pawn(sq, clr);
        let our = self.pawn_bb(clr);
        let su = pawn_att_count(1 - clr, sq, our) as isize;
        let seed = connected_seed_value(r);
        let k: isize = 2 + ph as isize - op as isize;
        assert(0 <= seed * k <= 258) by (nonlinear_arith)
            requires
                0 <= seed <= 86,
                1 <= k <= 3,
        ;
        seed * k + 21 * su
    }

    fn weak_unopposed_pawn(&mut self, sq: usize, clr: Color) -> (r: bool)
        ensures
            r == weak_unopposed_of(*old(self), sq as int, clr),
            *final(self) == *old(self),
    {
        !self.opposed_pawn(sq, clr) && (self.isolated_pawn(sq, clr) || self.backward_pawn(sq, clr))
    }

    fn blocked_pawn_5th_6th_rank(&mut self, sq: usize, clr: Color) -> (r: isize)
        ensures
            r == blocked_far_of(old(self).bitboard, sq as int, clr),
            *final(self) == *old(self),
    {
        let rank: usize = if clr == WHITE { sq / 8 } else { 7 - sq / 8 };
        let their = self.pawn_bb(1 - clr);
        if (rank == 4 || rank == 5) && self.blocked_pawn(sq, clr, their) {
            return (rank - 3) as isize;
        }
        0
    }
}


/// A bitboard with no square set counts no squares.
proof fn lemma_count_none(n: nat)
    requires
        n <= 64,
    ensures
        count_bits(0u64, n) == 0,
    decreases n,
{
    lemma_bit_consts();
    if n > 0 {
        lemma_count_none((n - 1) as nat);
        assert(!has_bit(0u64, (n - 1) as u64));
    }
}

/// An enemy rook or queen on the file of the pawn of `c` on `s`, behind it, makes its way
/// ahead unsafe: the way-ahead bonus is nothing, or five times the weight of its rank when the
/// square in front is defended or an own rook or queen stands behind the pawn; with neither,
/// it is nothing.
pub proof fn lemma_heavy_behind_passed(b: &Board, s: int, c: u8, t: u64)
    requires
        c < 2,
        0 <= s < 64,
        t < 64,
        t % 8 == s % 8,
        if c == WHITE { t / 8 < s / 8 } else { t / 8 > s / 8 },
        has_bit(b.bitboard[QUEEN + 1 - c] | b.bitboard[ROOK + 1 - c], t),
        0 <= (if c == WHITE { s + 8 } else { s - 8 }) < 64,
    ensures
        passed_blocked_of(b, s, c) == 0 || passed_blocked_of(b, s, c) == 5 * (5 * rel_rank(c, s) - 13),
        (!has_bit(b.eval.defend_map[c as int] | b.eval.attack_map[c as int], (if c == WHITE { s + 8 } else { s - 8 }) as u64)
            && forall|u: u64| u < 64 && u % 8 == s % 8 && (if c == WHITE { u / 8 < s / 8 } else { u / 8 > s / 8 })
                ==> !#[trigger] has_bit(b.bitboard[QUEEN + c] | b.bitboard[ROOK + c], u))
            ==> passed_blocked_of(b, s, c) == 0,
{
    let o = (1 - c) as u8;
    assert(forward_span_target(o, s, t as int));
    assert(span_hits(o, s, b.bitboard[QUEEN + o] | b.bitboard[ROOK + o]));
    let r = rel_rank(c, s);
    let one = front_of(c, s);
    let occ = b.bitboard[c as int] | b.bitboard[o as int];
    if !(r <= 2 || has_bit(occ, one as u64)) {
        let weight = 5 * r - 13;
        let d = b.eval.defend_map[c as int] | b.eval.attack_map[c as int];
        let own_heavy_behind = span_hits(o, s, b.bitboard[QUEEN + c] | b.bitboard[ROOK + c]);
        let defended1 = has_bit(d, one as u64) || own_heavy_behind;
        let kd: int = if defended1 { 5int } else { 0int };
        assert(passed_blocked_of(b, s, c) == (0 + kd) * weight);
        assert((0 + kd) * weight == kd * weight);
        if defended1 {
            assert(kd * weight == 5 * weight);
        } else {
            assert(kd == 0);
            assert(kd * weight == 0) by (nonlinear_arith)
                requires
                    kd == 0,
            ;
        }
    }
}

/// A pawn of `c` on `s` with an own pawn on a file next to it (so not isolated), but none
/// beside it or behind it on those files, and whose square in front holds an enemy pawn or is
/// attacked by one, is backward, and its weakness term is the backward penalty.
pub proof fn lemma_backward_penalty(b: &Board, s: int, c: u8, n: u64)
    requires
        c < 2,
        0 <= s < 64,
        1 <= s / 8 <= 6,
        n < 64,
        n % 8 == s % 8 + 1 || n % 8 == s % 8 - 1,
        has_bit(b.bitboard[PAWN + c], n),
        forall|v: u64| v < 64 && (v % 8 == s % 8 + 1 || v % 8 == s % 8 - 1) && #[trigger] has_bit(b.bitboard[PAWN + c], v)
            ==> (if c == WHITE { v / 8 > s / 8 } else { v / 8 < s / 8 }),
        has_bit(b.bitboard[PAWN + 1 - c], (if c == WHITE { s + 8 } else { s - 8 }) as u64)
            || has_bit(b.eval.attacked_by[PAWN + 1 - c], (if c == WHITE { s + 8 } else { s - 8 }) as u64),
    ensures
        backward_of(*b, s, c),
        weakness_term(*b, s, c) == (-9int, -24int),
{
    let o = (1 - c) as u8;
    let our = b.bitboard[PAWN + c];
    let front = front_of(c, s);
    assert(neighbour_file_hits(s, our));
    lemma_bit_consts();
    assert forall|t: u64| t < 64 implies !(pawn_att_target(o, front, t as int) && #[trigger] has_bit(our, t)) by {
        lemma_at(row_of(front) + pawn_dir(o), col_of(front) + 1, t as int);
        lemma_at(row_of(front) + pawn_dir(o), col_of(front) - 1, t as int);
    }
    assert(att_bits(0u64, o, front, our));
    let y = choose|y: u64| #[trigger] att_bits(y, o, front, our);
    assert forall|i: u64| i < 64 implies !#[trigger] has_bit(y, i) by {
        assert(!(pawn_att_target(o, front, i as int) && has_bit(our, i)));
    }
    lemma_empty_is_zero(y);
    lemma_count_none(64);
    assert(att_count(o, front, our) == 0);
    assert(!lr_hits(o, s, our));
}

/// Every bitboard of the blocked squares of the space weight of `c` holds the square in front
/// of a pawn of either side that two pawns of the other side attack.
pub proof fn lemma_space_blocks_attacked_front(bb: [u64; 14], c: u8, d: u8, p: u64, x: u64)
    requires
        c < 2,
        d < 2,
        p < 64,
        has_bit(bb[PAWN + d], p),
        0 <= p + 8 * pawn_dir(d) < 64,
        1 <= (p + 8 * pawn_dir(d)) % 8 <= 6,
        0 <= p + 16 * pawn_dir(d) - 1,
        p + 16 * pawn_dir(d) + 1 < 64,
        has_bit(bb[PAWN + 1 - d], (p + 16 * pawn_dir(d) - 1) as u64),
        has_bit(bb[PAWN + 1 - d], (p + 16 * pawn_dir(d) + 1) as u64),
        space_blocked_bits(x, bb, c),
    ensures
        has_bit(x, (p + 8 * pawn_dir(d)) as u64),
{
    let t = p + 8 * pawn_dir(d);
    assert(has_bit(x, t as u64) == space_blocked_sq(bb, c, t));
}

/// Every bitboard of the blocked squares of the space weight of `c` holds the square in front
/// of a pawn of either side taken by a pawn of the other side.
pub proof fn lemma_space_blocks_rammed(bb: [u64; 14], c: u8, d: u8, p: u64, x: u64)
    requires
        c < 2,
        d < 2,
        p < 64,
        has_bit(bb[PAWN + d], p),
        0 <= p + 8 * pawn_dir(d) < 64,
        has_bit(bb[PAWN + 1 - d], (p + 8 * pawn_dir(d)) as u64),
        space_blocked_bits(x, bb, c),
    ensures
        has_bit(x, (p + 8 * pawn_dir(d)) as u64),
{
    let t = p + 8 * pawn_dir(d);
    assert(has_bit(x, t as u64) == space_blocked_sq(bb, c, t));
}

/// The mobility area of `c` holds exactly the squares free of its king, its queens and its
/// pawns and not attacked by a pawn of the other side.
pub proof fn lemma_mobility_area_squares(b: &Board, c: u8)
    requires
        c < 2,
    ensures
        forall|t: u64| t < 64 ==> (#[trigger] has_bit(mob_area(b, c as int), t) <==> (!has_bit(b.bitboard[KING + c], t)
            && !has_bit(b.bitboard[QUEEN + c], t) && !has_bit(b.bitboard[PAWN + c], t)
            && !has_bit(b.eval.attacked_by[PAWN + 1 - c], t))),
{
    let a0 = 0xffff_ffff_ffff_ffffu64;
    let k = b.bitboard[KING + c];
    let q = b.bitboard[QUEEN + c];
    let pw = b.bitboard[PAWN + c];
    let e = b.eval.attacked_by[PAWN + 1 - c];
    lemma_bit_consts();
    lemma_bit_ops(a0, !k);
    lemma_bit_ops(k, k);
    lemma_bit_ops(a0 & !k, !q);
    lemma_bit_ops(q, q);
    lemma_bit_ops(a0 & !k & !q, !pw);
    lemma_bit_ops(pw, pw);
    lemma_bit_ops(a0 & !k & !q & !pw, !e);
    lemma_bit_ops(e, e);
}


/// A square of `bb` on the file of `s` beyond it, toward the far side of `c`, is a hit of the
/// forward span of a pawn of `c` on `s`.
proof fn lemma_file_ahead_hits(c: u8, s: int, bb: u64)
    requires
        c < 2,
    ensures
        (exists|t: u64| t < 64 && t % 8 == s % 8 && (if c == WHITE { t / 8 > s / 8 } else { t / 8 < s / 8 })
            && #[trigger] has_bit(bb, t)) == span_hits(c, s, bb),
{
    if exists|t: u64| t < 64 && t % 8 == s % 8 && (if c == WHITE { t / 8 > s / 8 } else { t / 8 < s / 8 }) && #[trigger] has_bit(bb, t) {
        let t = choose|t: u64| t < 64 && t % 8 == s % 8 && (if c == WHITE { t / 8 > s / 8 } else { t / 8 < s / 8 }) && #[trigger] has_bit(bb, t);
        assert(forward_span_target(c, s, t as int));
    }
    if span_hits(c, s, bb) {
        let t = choose|t: u64| t < 64 && forward_span_target(c, s, t as int) && #[trigger] has_bit(bb, t);
        assert(t % 8 == s % 8 && (if c == WHITE { t / 8 > s / 8 } else { t / 8 < s / 8 }));
    }
}

/// A square of `bb` beyond `s` toward the far side of `c`, on a file next to that of `s`, is a
/// hit of the side spans of a pawn of `c` on `s`.
proof fn lemma_side_ahead_hits(c: u8, s: int, bb: u64)
    requires
        c < 2,
    ensures
        (exists|t: u64| t < 64 && (t % 8 == s % 8 + 1 || t % 8 == s % 8 - 1)
            && (if c == WHITE { t / 8 > s / 8 } else { t / 8 < s / 8 }) && #[trigger] has_bit(bb, t)) == lr_hits(c, s, bb),
{
    if exists|t: u64| t < 64 && (t % 8 == s % 8 + 1 || t % 8 == s % 8 - 1) && (if c == WHITE { t / 8 > s / 8 } else { t / 8 < s / 8 }) && #[trigger] has_bit(bb, t) {
        let t = choose|t: u64| t < 64 && (t % 8 == s % 8 + 1 || t % 8 == s % 8 - 1) && (if c == WHITE { t / 8 > s / 8 } else { t / 8 < s / 8 }) && #[trigger] has_bit(bb, t);
        assert(forward_lr_target(c, s, t as int));
    }
    if lr_hits(c, s, bb) {
        let t = choose|t: u64| t < 64 && forward_lr_target(c, s, t as int) && #[trigger] has_bit(bb, t);
        assert((t % 8 == s % 8 + 1 || t % 8 == s % 8 - 1) && (if c == WHITE { t / 8 > s / 8 } else { t / 8 < s / 8 }));
    }
}

/// A square of `bb` on the file of `s` behind it, as a pawn of `c` sees it, is a hit of the
/// forward span of a pawn of the other side on `s`.
proof fn lemma_file_behind_hits(c: u8, s: int, bb: u64)
    requires
        c < 2,
    ensures
        (exists|t: u64| t < 64 && t % 8 == s % 8 && (if c == WHITE { t / 8 < s / 8 } else { t / 8 > s / 8 })
            && #[trigger] has_bit(bb, t)) == span_hits((1 - c) as u8, s, bb),
{
    let o = (1 - c) as u8;
    if exists|t: u64| t < 64 && t % 8 == s % 8 && (if c == WHITE { t / 8 < s / 8 } else { t / 8 > s / 8 }) && #[trigger] has_bit(bb, t) {
        let t = choose|t: u64| t < 64 && t % 8 == s % 8 && (if c == WHITE { t / 8 < s / 8 } else { t / 8 > s / 8 }) && #[trigger] has_bit(bb, t);
        assert(forward_span_target(o, s, t as int));
    }
    if span_hits(o, s, bb) {
        let t = choose|t: u64| t < 64 && forward_span_target(o, s, t as int) && #[trigger] has_bit(bb, t);
        assert(t % 8 == s % 8 && (if c == WHITE { t / 8 < s / 8 } else { t / 8 > s / 8 }));
    }
}

/// The way-ahead bonus of the pawn of `c` on `s`, by what the other side covers. With `w` the
/// weight of its relative rank (`5 * rank - 13`) and a bonus of 5 for a square in front that
/// is defended or an own rook or queen behind the pawn: nothing on the first three ranks or
/// with the square in front taken; with the square in front covered by the other side or an
/// enemy rook or queen behind the pawn, just the defence bonus; otherwise 9 more when the other
/// side covers a square ahead on the file, 20 more when it covers only squares ahead on the
/// files beside, and 35 more when it covers none of these.
pub proof fn lemma_passed_way_ahead(b: &Board, s: int, c: u8)
    requires
        c < 2,
        0 <= s < 64,
        0 <= (if c == WHITE { s + 8 } else { s - 8 }) < 64,
    ensures
        ({
            let f = (if c == WHITE { s + 8 } else { s - 8 }) as u64;
            let w = 5 * rel_rank(c, s) - 13;
            let u = b.eval.defend_map[1 - c] | b.eval.attack_map[1 - c];
            let taken = has_bit(b.bitboard[c as int], f) || has_bit(b.bitboard[1 - c], f);
            let enemy_behind = exists|t: u64| t < 64 && t % 8 == s % 8 && (if c == WHITE { t / 8 < s / 8 } else { t / 8 > s / 8 })
                && #[trigger] has_bit(b.bitboard[QUEEN + 1 - c] | b.bitboard[ROOK + 1 - c], t);
            let own_behind = exists|t: u64| t < 64 && t % 8 == s % 8 && (if c == WHITE { t / 8 < s / 8 } else { t / 8 > s / 8 })
                && #[trigger] has_bit(b.bitboard[QUEEN + c] | b.bitboard[ROOK + c], t);
            let file_covered = exists|t: u64| t < 64 && t % 8 == s % 8 && (if c == WHITE { t / 8 > s / 8 } else { t / 8 < s / 8 })
                && #[trigger] has_bit(u, t);
            let side_covered = exists|t: u64| t < 64 && (t % 8 == s % 8 + 1 || t % 8 == s % 8 - 1)
                && (if c == WHITE { t / 8 > s / 8 } else { t / 8 < s / 8 }) && #[trigger] has_bit(u, t);
            let dd: int = if has_bit(b.eval.defend_map[c as int] | b.eval.attack_map[c as int], f) || own_behind { 5 } else { 0 };
            let r = passed_blocked_of(b, s, c);
            &&& (rel_rank(c, s) <= 2 || taken ==> r == 0)
            &&& (rel_rank(c, s) > 2 && !taken && (has_bit(u, f) || enemy_behind) ==> r == dd * w)
            &&& (rel_rank(c, s) > 2 && !taken && !has_bit(u, f) && !enemy_behind && file_covered ==> r == (9 + dd) * w)
            &&& (rel_rank(c, s) > 2 && !taken && !enemy_behind && !file_covered && side_covered ==> r == (20 + dd) * w)
            &&& (rel_rank(c, s) > 2 && !taken && !enemy_behind && !file_covered && !side_covered ==> r == (35 + dd) * w)
        }),
{
    let o = (1 - c) as u8;
    let f = (if c == WHITE { s + 8 } else { s - 8 }) as u64;
    let u = b.eval.defend_map[1 - c] | b.eval.attack_map[1 - c];
    let enemy_behind = exists|t: u64| t < 64 && t % 8 == s % 8 && (if c == WHITE { t / 8 < s / 8 } else { t / 8 > s / 8 })
        && #[trigger] has_bit(b.bitboard[QUEEN + 1 - c] | b.bitboard[ROOK + 1 - c], t);
    let own_behind = exists|t: u64| t < 64 && t % 8 == s % 8 && (if c == WHITE { t / 8 < s / 8 } else { t / 8 > s / 8 })
        && #[trigger] has_bit(b.bitboard[QUEEN + c] | b.bitboard[ROOK + c], t);
    let file_covered = exists|t: u64| t < 64 && t % 8 == s % 8 && (if c == WHITE { t / 8 > s / 8 } else { t / 8 < s / 8 })
        && #[trigger] has_bit(u, t);
    let side_covered = exists|t: u64| t < 64 && (t % 8 == s % 8 + 1 || t % 8 == s % 8 - 1)
        && (if c == WHITE { t / 8 > s / 8 } else { t / 8 < s / 8 }) && #[trigger] has_bit(u, t);
    let eh = b.bitboard[QUEEN + 1 - c] | b.bitboard[ROOK + 1 - c];
    assert(eh == b.bitboard[QUEEN + o] | b.bitboard[ROOK + o]);
    lemma_file_behind_hits(c, s, eh);
    lemma_file_behind_hits(c, s, b.bitboard[QUEEN + c] | b.bitboard[ROOK + c]);
    lemma_file_ahead_hits(c, s, u);
    lemma_side_ahead_hits(c, s, u);
    assert(enemy_behind == span_hits(o, s, b.bitboard[QUEEN + o] | b.bitboard[ROOK + o]));
    assert(own_behind == span_hits(o, s, b.bitboard[QUEEN + c] | b.bitboard[ROOK + c]));
    assert(file_covered == span_hits(c, s, u));
    assert(side_covered == lr_hits(c, s, u));
    assert(u == b.eval.defend_map[o as int] | b.eval.attack_map[o as int]);
    lemma_bit_ops(b.bitboard[c as int], b.bitboard[o as int]);
    assert(f == front_of(c, s) as u64);
    let occ = b.bitboard[c as int] | b.bitboard[o as int];
    assert(has_bit(occ, f) == (has_bit(b.bitboard[c as int], f) || has_bit(b.bitboard[1 - c], f)));
}


/// The square `t` in front of a pawn of side `d` is blocked: a pawn of the other side stands
/// on it, or two pawns of the other side attack it.
pub open spec fn front_blocked(bb: [u64; 14], d: u8, t: int) -> bool {
    let e = 1 - d;
    let p = t - 8 * pawn_dir(d);
    &&& 0 <= p < 64
    &&& has_bit(bb[PAWN + d], p as u64)
    &&& (has_bit(bb[PAWN + e], t as u64) || (1 <= t % 8 <= 6 && 0 <= t + 8 * pawn_dir(d) - 1 && t + 8 * pawn_dir(d) + 1 < 64
        && has_bit(bb[PAWN + e], (t + 8 * pawn_dir(d) - 1) as u64) && has_bit(bb[PAWN + e], (t + 8 * pawn_dir(d) + 1) as u64)))
}

/// The blocked squares counted in the space weight of `c` are exactly the squares in front of
/// a pawn of either side that a pawn of the other side takes or two pawns of the other side
/// attack.
pub proof fn lemma_space_blocked_squares(bb: [u64; 14], c: u8, x: u64, t: u64)
    requires
        c < 2,
        t < 64,
        space_blocked_bits(x, bb, c),
    ensures
        has_bit(x, t) <==> front_blocked(bb, c, t as int) || front_blocked(bb, (1 - c) as u8, t as int),
{
    assert(has_bit(x, t) == space_blocked_sq(bb, c, t as int));
    assert(bb[PAWN + (1 - c) as u8] == bb[PAWN + 1 - c]);
}

/// A bitboard with no square that a pawn of `c` on `s` attacks counts no such square.
proof fn lemma_att_count_none(c: u8, s: int, bb: u64)
    requires
        forall|t: u64| t < 64 ==> !(pawn_att_target(c, s, t as int) && #[trigger] has_bit(bb, t)),
    ensures
        att_count(c, s, bb) == 0,
{
    lemma_bit_consts();
    assert(att_bits(0u64, c, s, bb));
    let y = choose|y: u64| #[trigger] att_bits(y, c, s, bb);
    assert forall|i: u64| i < 64 implies !#[trigger] has_bit(y, i) by {
        assert(!(pawn_att_target(c, s, i as int) && has_bit(bb, i)));
    }
    lemma_empty_is_zero(y);
    lemma_count_none(64);
}

/// The weakness term of an isolated pawn of `c` on `s` (no own pawn on the files next to its
/// own): the doubled isolated penalty when an own pawn stands behind it on its file, an enemy
/// pawn ahead of it on its file and no enemy pawn on the files next to its own; the isolated
/// penalty otherwise.
pub proof fn lemma_isolated_penalty(b: &Board, s: int, c: u8)
    requires
        c < 2,
        0 <= s < 64,
        forall|v: u64| v < 64 && (v % 8 == s % 8 + 1 || v % 8 == s % 8 - 1) ==> !#[trigger] has_bit(b.bitboard[PAWN + c], v),
    ensures
        weakness_term(*b, s, c) == (if (exists|t: u64| t < 64 && t % 8 == s % 8 && (if c == WHITE { t / 8 < s / 8 } else { t / 8 > s / 8 })
            && #[trigger] has_bit(b.bitboard[PAWN + c], t))
            && (exists|t: u64| t < 64 && t % 8 == s % 8 && (if c == WHITE { t / 8 > s / 8 } else { t / 8 < s / 8 })
            && #[trigger] has_bit(b.bitboard[PAWN + 1 - c], t))
            && (forall|v: u64| v < 64 && (v % 8 == s % 8 + 1 || v % 8 == s % 8 - 1) ==> !#[trigger] has_bit(b.bitboard[PAWN + 1 - c], v)) {
            (-11int, -56int)
        } else {
            (-5int, -15int)
        }),
{
    let o = (1 - c) as u8;
    let our = b.bitboard[PAWN + c];
    let their = b.bitboard[PAWN + 1 - c];
    assert(their == b.bitboard[PAWN + o]);
    lemma_file_behind_hits(c, s, our);
    lemma_file_ahead_hits(c, s, their);
    assert(!neighbour_file_hits(s, our));
}

/// A pawn of `c` on `s` with no own pawn right behind it gets no doubled penalty; with one,
/// and no own pawn defending it, it gets the doubled penalty.
pub proof fn lemma_doubled_penalty(bb: [u64; 14], s: int, c: u8)
    requires
        c < 2,
        8 <= s < 56,
    ensures
        !has_bit(bb[PAWN + c], (if c == WHITE { s - 8 } else { s + 8 }) as u64) ==> doubled_term(bb, s, c) == (0int, 0int),
        has_bit(bb[PAWN + c], (if c == WHITE { s - 8 } else { s + 8 }) as u64)
            && (forall|v: u64| v < 64 && (v % 8 == s % 8 + 1 || v % 8 == s % 8 - 1) && #[trigger] has_bit(bb[PAWN + c], v)
                ==> v / 8 != (if c == WHITE { s / 8 - 1 } else { s / 8 + 1 }))
            ==> doubled_term(bb, s, c) == (-11int, -56int),
{
    let o = (1 - c) as u8;
    let our = bb[PAWN + c];
    if forall|v: u64| v < 64 && (v % 8 == s % 8 + 1 || v % 8 == s % 8 - 1) && #[trigger] has_bit(our, v)
        ==> v / 8 != (if c == WHITE { s / 8 - 1 } else { s / 8 + 1 }) {
        assert forall|t: u64| t < 64 implies !(pawn_att_target(o, s, t as int) && #[trigger] has_bit(our, t)) by {
            lemma_at(row_of(s) + pawn_dir(o), col_of(s) + 1, t as int);
            lemma_at(row_of(s) + pawn_dir(o), col_of(s) - 1, t as int);
        }
        lemma_att_count_none(o, s, our);
    }
}

/// A pawn of `c` on `s` that no own pawn defends, with no own pawn defending the square in
/// front either, is not connected and gets no connected bonus.
pub proof fn lemma_unconnected_no_bonus(bb: [u64; 14], s: int, c: u8)
    requires
        c < 2,
        8 <= s < 56,
        forall|v: u64| v < 64 && (v % 8 == s % 8 + 1 || v % 8 == s % 8 - 1) && #[trigger] has_bit(bb[PAWN + c], v)
            ==> v / 8 != (if c == WHITE { s / 8 - 1 } else { s / 8 + 1 }) && v / 8 != s / 8,
    ensures
        !connected_of(bb, s, c),
        connected_bonus_of(bb, s, c) == 0,
        connected_term(bb, s, c) == (0int, 0int),
{
    let o = (1 - c) as u8;
    let our = bb[PAWN + c];
    let front = front_of(c, s);
    assert forall|t: u64| t < 64 implies !(pawn_att_target(o, s, t as int) && #[trigger] has_bit(our, t)) by {
        lemma_at(row_of(s) + pawn_dir(o), col_of(s) + 1, t as int);
        lemma_at(row_of(s) + pawn_dir(o), col_of(s) - 1, t as int);
    }
    lemma_att_count_none(o, s, our);
    assert forall|t: u64| t < 64 implies !(pawn_att_target(o, front, t as int) && #[trigger] has_bit(our, t)) by {
        lemma_at(row_of(front) + pawn_dir(o), col_of(front) + 1, t as int);
        lemma_at(row_of(front) + pawn_dir(o), col_of(front) - 1, t as int);
    }
    lemma_att_count_none(o, front, our);
}

/// A connected pawn of `c` on `s` off its first and last ranks gets a positive bonus, and its
/// end game part is no larger in size than its middle game part.
pub proof fn lemma_connected_bonus_positive(bb: [u64; 14], s: int, c: u8)
    requires
        c < 2,
        8 <= s < 56,
        connected_of(bb, s, c),
    ensures
        connected_term(bb, s, c).0 >= 7,
        -connected_term(bb, s, c).0 <= connected_term(bb, s, c).1 <= connected_term(bb, s, c).0,
{
    let our = bb[PAWN + c];
    let r = rel_rank(c, s);
    lemma_att_count_bound((1 - c) as u8, s, our);
    let ph: int = if att_count((1 - c) as u8, front_of(c, s), our) > 0 { 1 } else { 0 };
    let op: int = if span_hits(c, s, bb[PAWN + 1 - c]) { 1 } else { 0 };
    let seed = connected_seed(r);
    let k = 2 + ph - op;
    assert(7 <= seed * k) by (nonlinear_arith)
        requires
            7 <= seed,
            1 <= k,
    ;
    let cb = connected_bonus_of(bb, s, c);
    assert(cb >= 7);
    let x = cb * (r - 2);
    assert(-cb <= x <= 4 * cb) by (nonlinear_arith)
        requires
            0 <= cb,
            -1 <= r - 2 <= 4,
            x == cb * (r - 2),
    ;
}

/// The term of a pawn of `c` on `s` blocked far up: with an enemy pawn right in front of it,
/// (-11, -4) on its fifth rank and (-3, 4) on its sixth; nothing otherwise.
pub proof fn lemma_blocked_far_term(bb: [u64; 14], s: int, c: u8)
    requires
        c < 2,
        8 <= s < 56,
    ensures
        ({
            let r = if c == WHITE { s / 8 } else { 7 - s / 8 };
            let blocked = has_bit(bb[PAWN + 1 - c], (if c == WHITE { s + 8 } else { s - 8 }) as u64);
            &&& (blocked && r == 4 ==> blocked_far_term(bb, s, c) == (-11int, -4int))
            &&& (blocked && r == 5 ==> blocked_far_term(bb, s, c) == (-3int, 4int))
            &&& (!blocked || (r != 4 && r != 5) ==> blocked_far_term(bb, s, c) == (0int, 0int))
        }),
{
}


/// A bitboard with a square below `n` counts at least one square among its `n` lowest.
proof fn lemma_count_some(b: u64, i: u64, n: nat)
    requires
        i < n <= 64,
        has_bit(b, i),
    ensures
        count_bits(b, n) >= 1,
    decreases n,
{
    if i < n - 1 {
        lemma_count_some(b, i, (n - 1) as nat);
    }
}

/// A pawn of `c` on `s` that attacks a square of `bb` counts at least one such square.
proof fn lemma_att_count_some(c: u8, s: int, bb: u64, t: u64)
    requires
        0 <= s < 64,
        t < 64,
        pawn_att_target(c, s, t as int),
        has_bit(bb, t),
    ensures
        att_count(c, s, bb) >= 1,
{
    let r = row_of(s) + pawn_dir(c);
    let a = r * 8 + col_of(s) + 1;
    let d = r * 8 + col_of(s) - 1;
    let ma: u64 = if inside(r, col_of(s) + 1) { 1u64 << (a as u64) } else { 0u64 };
    let md: u64 = if inside(r, col_of(s) - 1) { 1u64 << (d as u64) } else { 0u64 };
    let m = ma | md;
    let x = bb & m;
    lemma_bit_consts();
    lemma_bit_ops(ma, md);
    lemma_bit_ops(bb, m);
    assert forall|i: u64| i < 64 implies #[trigger] has_bit(x, i) == (pawn_att_target(c, s, i as int) && has_bit(bb, i)) by {
        lemma_at(r, col_of(s) + 1, i as int);
        lemma_at(r, col_of(s) - 1, i as int);
    }
    assert(att_bits(x, c, s, bb));
    let y = choose|y: u64| #[trigger] att_bits(y, c, s, bb);
    assert(has_bit(y, t));
    lemma_count_some(y, t, 64);
}

/// A pawn of `c` on `s` defended by an own pawn is connected and is no weak lever.
pub proof fn lemma_defended_pawn(bb: [u64; 14], s: int, c: u8, v: u64)
    requires
        c < 2,
        8 <= s < 56,
        v < 64,
        has_bit(bb[PAWN + c], v),
        v % 8 == s % 8 + 1 || v % 8 == s % 8 - 1,
        v / 8 == (if c == WHITE { s / 8 - 1 } else { s / 8 + 1 }),
    ensures
        connected_of(bb, s, c),
        lever_term(bb, s, c) == (0int, 0int),
{
    let o = (1 - c) as u8;
    lemma_at(row_of(s) + pawn_dir(o), col_of(s) + 1, v as int);
    lemma_at(row_of(s) + pawn_dir(o), col_of(s) - 1, v as int);
    assert(pawn_att_target(o, s, v as int));
    lemma_att_count_some(o, s, bb[PAWN + c], v);
}

/// An opposed pawn of `c` on `s` (an enemy pawn ahead of it on its file) is never a weak
/// unopposed pawn.
pub proof fn lemma_opposed_not_weak_unopposed(b: &Board, s: int, c: u8, t: u64)
    requires
        c < 2,
        0 <= s < 64,
        t < 64,
        t % 8 == s % 8,
        if c == WHITE { t / 8 > s / 8 } else { t / 8 < s / 8 },
        has_bit(b.bitboard[PAWN + 1 - c], t),
    ensures
        !weak_unopposed_of(*b, s, c),
{
    lemma_file_ahead_hits(c, s, b.bitboard[PAWN + 1 - c]);
}

} // verus!
