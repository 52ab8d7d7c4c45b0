use vstd::prelude::*;
use crate::bits::{Bitboard, BitboardTrait, has_bit};
use crate::castling::{Castling, CASTLING_NONE, cr_has, castle_rook_home, castle_king_home, castle_right, castle_color};
use crate::eval::Evaluation;
use crate::fen::{fen_board, try_read_fen, lemma_start_valid};
use vstd::string::StringSliceAdditionalSpecFns;
use crate::moves::Move;
use crate::piece::{Piece, PieceTrait, Color, WHITE, BLACK, PAWN, KNIGHT, KING, BISHOP, ROOK, QUEEN, valid_piece, piece_color};

verus! {

/// The FEN record of the start position.
pub const FEN_START: &'static str = "rnbqkbnr/pppppppp/8/8/8/8/PPPPPPPP/RNBQKBNR w KQkq - 0 1";

/// The maximal search depth the principal variation table holds.
pub const MAX_PLY: usize = 64;

/// The part of a position that a move changes and that undoing restores.
#[derive(Debug, PartialEq, Eq, Clone, Copy, Structural)]
pub struct BoardState {
    pub key: u64,
    pub pk_key: u64,
    pub color: Color,
    pub castling: Castling,
    pub ep: Option<u8>,
    pub half_move: u8,
    pub full_move: u16,
    pub phase: isize,
}

/// The moves held in a sequence of table entries, in order.
pub open spec fn collect_some(s: Seq<Option<Move>>) -> Seq<Move>
    decreases s.len(),
{
    if s.len() == 0 {
        seq![]
    } else {
        let rest = collect_some(s.drop_last());
        match s.last() {
            Some(m) => rest.push(m),
            None => rest,
        }
    }
}

/// The state of an empty board: white to move, no rights, move one.
pub open spec fn empty_state() -> BoardState {
    BoardState {
        color: WHITE,
        castling: CASTLING_NONE,
        ep: None,
        half_move: 0,
        full_move: 1,
        key: 0,
        pk_key: 0,
        phase: 0,
    }
}

impl BoardState {
    /// The state of an empty board: white to move, no rights, move one.
    pub fn init() -> (r: Self)
        ensures
            r == empty_state(),
    {
        Self {
            color: WHITE,
            castling: CASTLING_NONE,
            ep: None,
            half_move: 0,
            full_move: 1,
            key: 0,
            pk_key: 0,
            phase: 0,
        }
    }
}

/// A chess position with the moves that led to it and the tables of the search.
#[derive(Debug, PartialEq, Eq)]
pub struct Board {
    // Piece occupancy, by square and by bitboard
    pub squares: [Option<Piece>; 64],
    pub bitboard: [Bitboard; 14],
    // Moves played and the states before them
    pub moves: Vec<Move>,
    pub history: Vec<BoardState>,
    pub state: BoardState,
    // Move ordering
    pub s_history: [[u64; 64]; 14],
    pub s_killers: [[Option<Move>; 2]; 64],
    pub pv_moves: [[Option<Move>; 64]; 64],
    pub pv_len: [usize; 64],
    pub gen_moves: Vec<(Move, isize)>,
    pub eval: Evaluation,
}

/// Squares and bitboards agree: every square holds a piece of a color or nothing,
/// bitboard `p` (2 to 13) holds the squares of piece `p`, bitboard `c` (0 or 1) those of color `c`.
pub open spec fn cells_ok(squares: [Option<Piece>; 64], bitboard: [Bitboard; 14]) -> bool {
    &&& forall|s: int| 0 <= s < 64 && #[trigger] squares[s] is Some ==> valid_piece(squares[s]->0)
    &&& forall|p: int, s: u64| 2 <= p < 14 && s < 64 ==> (#[trigger] has_bit(bitboard[p], s) <==> squares[s as int] == Some(p as u8))
    &&& forall|c: int, s: u64| 0 <= c < 2 && s < 64 ==> (#[trigger] has_bit(bitboard[c], s) <==> (squares[s as int] is Some && piece_color(squares[s as int]->0) == c))
}

impl Board {
    /// The squares and bitboards of the board agree.
    pub open spec fn pieces_ok(&self) -> bool {
        cells_ok(self.squares, self.bitboard)
    }

    /// Every castling right still held has its king and rook on their home squares.
    pub open spec fn castling_ok(&self) -> bool {
        forall|i: int| 0 <= i < 4 && #[trigger] cr_has(self.state.castling, castle_right(i)) ==> self.squares[castle_rook_home(i)] == Some((ROOK + castle_color(i)) as u8)
            && self.squares[castle_king_home(i)] == Some((KING + castle_color(i)) as u8)
    }

    /// The en passant square, when set, is the empty square behind a pawn of the side
    /// not to move that has just moved two squares.
    pub open spec fn ep_ok(&self) -> bool {
        self.state.ep is Some ==> {
            let e = self.state.ep->0 as int;
            let behind = if self.state.color == WHITE { e - 8 } else { e + 8 };
            &&& 0 <= e < 64
            &&& if self.state.color == WHITE { e / 8 == 5 } else { e / 8 == 2 }
            &&& self.squares[e] is None
            &&& self.squares[behind] == Some((PAWN + 1 - self.state.color) as u8)
        }
    }

    /// A consistent position.
    pub open spec fn wf(&self) -> bool {
        &&& self.pieces_ok()
        &&& self.state.color < 2
        &&& self.state.castling < 16
        &&& self.castling_ok()
        &&& self.ep_ok()
    }

    /// The side `c` has a king on the board.
    pub open spec fn has_king(&self, c: int) -> bool {
        self.bitboard[KING + c] != 0
    }

    /// The principal variation table, the killer moves and the evaluation state are as
    /// in `other`.
    pub open spec fn same_tables(&self, other: &Board) -> bool {
        &&& self.s_history == other.s_history
        &&& self.s_killers == other.s_killers
        &&& self.pv_moves == other.pv_moves
        &&& self.pv_len == other.pv_len
        &&& self.gen_moves@ == other.gen_moves@
        &&& self.eval == other.eval
    }

    /// The start position.
    pub fn initialize() -> (r: Self)
        ensures
            fen_board(FEN_START.spec_bytes(), &r),
    {
        proof {
            lemma_start_valid();
        }
        match try_read_fen(FEN_START) {
            Some(b) => b,
            None => Board::create(),
        }
    }

    /// An empty board with white to move.
    pub fn create() -> (r: Self)
        ensures
            forall|s: int| 0 <= s < 64 ==> r.squares[s] is None,
            forall|i: int| 0 <= i < 14 ==> r.bitboard[i] == 0,
            r.moves@.len() == 0,
            r.history@.len() == 0,
            r.state == empty_state(),
            r.gen_moves@.len() == 0,
            r.eval.is_cleared(),
            r.wf(),
    {
        let r = Self {
            squares: [None;64],
            bitboard: [0;14],
            moves: Vec::with_capacity(1024),
            history: Vec::with_capacity(1024),
            state: BoardState::init(),
            s_history: [[0u64;64];14],
            s_killers: [[None;2];64],
            pv_moves: [[None;64];64],
            pv_len: [0;64],
            gen_moves: Vec::with_capacity(256),
            eval: Evaluation::init(),
        };
        proof {
            crate::bits::lemma_bit_consts();
            assert(r.castling_ok()) by {
                assert forall|i: int| 0 <= i < 4 implies !#[trigger] cr_has(r.state.castling, castle_right(i)) by {
                    crate::castling::lemma_no_rights(castle_right(i));
                }
            }
        }
        r
    }

    /// Empties the board and forgets the moves played.
    pub fn reset(&mut self)
        ensures
            forall|s: int| 0 <= s < 64 ==> final(self).squares[s] is None,
            forall|i: int| 0 <= i < 14 ==> final(self).bitboard[i] == 0,
            final(self).moves@.len() == 0,
            final(self).history@.len() == 0,
            final(self).state == empty_state(),
            final(self).gen_moves@.len() == 0,
            final(self).eval.is_cleared(),
            final(self).eval.material_eval == old(self).eval.material_eval,
            final(self).eval.psqt_eval == old(self).eval.psqt_eval,
            forall|p: int, s: int| 0 <= p < 14 && 0 <= s < 64 ==> final(self).s_history[p][s] == 0,
            forall|s: int, k: int| 0 <= s < 64 && 0 <= k < 2 ==> final(self).s_killers[s][k] is None,
            final(self).pv_moves == old(self).pv_moves,
            final(self).pv_len == old(self).pv_len,
            final(self).wf(),
    {
        self.squares = [None;64];
        self.bitboard = [0;14];
        self.moves = Vec::with_capacity(1024);
        self.history = Vec::with_capacity(1024);
        self.state = BoardState::init();
        self.s_history = [[0u64;64];14];
        self.s_killers = [[None;2];64];
        self.gen_moves.clear();
        self.eval.reset();
        proof {
            crate::bits::lemma_bit_consts();
            assert(self.castling_ok()) by {
                assert forall|i: int| 0 <= i < 4 implies !#[trigger] cr_has(self.state.castling, castle_right(i)) by {
                    crate::castling::lemma_no_rights(castle_right(i));
                }
            }
        }
    }

    /// An empty board with white to move; the same board as `create`.
    pub fn create_board() -> (r: Self)
        ensures
            forall|s: int| 0 <= s < 64 ==> r.squares[s] is None,
            forall|i: int| 0 <= i < 14 ==> r.bitboard[i] == 0,
            r.moves@.len() == 0,
            r.history@.len() == 0,
            r.state == empty_state(),
            r.gen_moves@.len() == 0,
            r.eval.is_cleared(),
            r.wf(),
    {
        Self::create()
    }

    /// Empties the board and forgets the moves played; the search tables and the
    /// evaluation state are kept.
    pub fn reset_board(&mut self)
        ensures
            forall|s: int| 0 <= s < 64 ==> final(self).squares[s] is None,
            forall|i: int| 0 <= i < 14 ==> final(self).bitboard[i] == 0,
            final(self).moves@.len() == 0,
            final(self).history@.len() == 0,
            final(self).state == empty_state(),
            final(self).same_tables(&*old(self)),
            final(self).wf(),
    {
        self.squares = [None;64];
        self.bitboard = [0;14];
        self.moves = Vec::with_capacity(1024);
        self.history = Vec::with_capacity(1024);
        self.state = BoardState::init();
        proof {
            crate::bits::lemma_bit_consts();
            assert(self.castling_ok()) by {
                assert forall|i: int| 0 <= i < 4 implies !#[trigger] cr_has(self.state.castling, castle_right(i)) by {
                    crate::castling::lemma_no_rights(castle_right(i));
                }
            }
        }
    }

    /// Empties the principal variation table.
    pub fn pv_clear(&mut self)
        ensures
            forall|i: int| 0 <= i < 64 ==> final(self).pv_len[i] == 0,
            forall|i: int, j: int| 0 <= i < 64 && 0 <= j < 64 ==> final(self).pv_moves[i][j] is None,
            final(self).squares == old(self).squares,
            final(self).bitboard == old(self).bitboard,
            final(self).state == old(self).state,
            final(self).moves@ == old(self).moves@,
            final(self).history@ == old(self).history@,
    {
        self.pv_len = [0;64];
        self.pv_moves = [[None;64];64];
    }

    /// The principal variation from the root: the moves held in the first row of the table,
    /// up to its length.
    pub fn get_pv(&self) -> (r: Vec<Move>)
        ensures
            r@ == collect_some(self.pv_moves[0]@.take(if self.pv_len[0] < 64 { self.pv_len[0] as int } else { 64 })),
    {
        let len = if self.pv_len[0] < MAX_PLY { self.pv_len[0] } else { MAX_PLY };
        let row = self.pv_moves[0];
        let mut v: Vec<Move> = Vec::new();
        let mut i: usize = 0;
        while i < len
            invariant
                len <= 64,
                row == self.pv_moves[0],
                len == if self.pv_len[0] < 64 { self.pv_len[0] as int } else { 64 },
                i <= len,
                v@ == collect_some(row@.take(i as int)),
            decreases len - i,
        {
            proof {
                assert(row@.take(i + 1).drop_last() == row@.take(i as int));
            }
            match row[i] {
                Some(mv) => {
                    v.push(mv);
                },
                None => {},
            }
            i = i + 1;
        }
        v
    }

    /// The bitboard of a piece.
    pub fn bb(&self, piece: Piece) -> (r: u64)
        requires
            piece < 14,
        ensures
            r == self.bitboard[piece as int],
    {
        self.bitboard[piece as usize]
    }

    /// The bitboards of a piece and of the same piece of the other side.
    pub fn both_bb(&self, piece: Piece) -> (r: (u64, u64))
        requires
            2 <= piece < 14,
        ensures
            r.0 == self.bitboard[piece as int],
            r.1 == self.bitboard[(if piece % 2 == 0 { piece + 1 } else { piece - 1 }) as int],
    {
        (self.bb(piece), self.bb(piece.opp()))
    }

    pub fn pawn_bb(&self, color: Color) -> (r: u64)
        requires
            color < 2,
        ensures
            r == self.bitboard[PAWN + color],
    {
        self.bitboard[(PAWN + color) as usize]
    }

    pub fn knight_bb(&self, color: Color) -> (r: u64)
        requires
            color < 2,
        ensures
            r == self.bitboard[KNIGHT + color],
    {
        self.bitboard[(KNIGHT + color) as usize]
    }

    pub fn king_bb(&self, color: Color) -> (r: u64)
        requires
            color < 2,
        ensures
            r == self.bitboard[KING + color],
    {
        self.bitboard[(KING + color) as usize]
    }

    pub fn bishop_bb(&self, color: Color) -> (r: u64)
        requires
            color < 2,
        ensures
            r == self.bitboard[BISHOP + color],
    {
        self.bitboard[(BISHOP + color) as usize]
    }

    pub fn rook_bb(&self, color: Color) -> (r: u64)
        requires
            color < 2,
        ensures
            r == self.bitboard[ROOK + color],
    {
        self.bitboard[(ROOK + color) as usize]
    }

    pub fn queen_bb(&self, color: Color) -> (r: u64)
        requires
            color < 2,
        ensures
            r == self.bitboard[QUEEN + color],
    {
        self.bitboard[(QUEEN + color) as usize]
    }

    /// The squares of a color's pieces.
    pub fn occ_bb(&self, color: Color) -> (r: u64)
        requires
            color < 2,
        ensures
            r == self.bitboard[color as int],
    {
        self.bitboard[color as usize]
    }

    /// The squares of a color's pieces and of the other side's pieces.
    pub fn both_occ_bb(&self, color: Color) -> (r: (u64, u64))
        requires
            color < 2,
        ensures
            r.0 == self.bitboard[color as int],
            r.1 == self.bitboard[1 - color],
    {
        (self.bitboard[color as usize], self.bitboard[(1 - color) as usize])
    }

    /// The square of a color's king (the lowest one), 64 when it has none.
    pub fn king_sq(&self, color: Color) -> (r: usize)
        requires
            color < 2,
        ensures
            self.bitboard[KING + color] == 0 ==> r == 64,
            self.bitboard[KING + color] != 0 ==> r < 64 && has_bit(self.bitboard[KING + color], r as u64)
                && forall|j: u64| j < r ==> !#[trigger] has_bit(self.bitboard[KING + color], j),
    {
        self.king_bb(color).get_lsb()
    }

    /// Number of moves played on the board.
    pub fn ply(&self) -> (r: usize)
        ensures
            r == self.moves@.len(),
    {
        self.moves.len()
    }

    pub fn key(&self) -> (r: u64)
        ensures
            r == self.state.key,
    {
        self.state.key
    }

    pub fn ep(&self) -> (r: Option<u8>)
        ensures
            r == self.state.ep,
    {
        self.state.ep
    }

    pub fn castling(&self) -> (r: Castling)
        ensures
            r == self.state.castling,
    {
        self.state.castling
    }

    pub fn color(&self) -> (r: Color)
        ensures
            r == self.state.color,
    {
        self.state.color
    }

    pub fn half_move(&self) -> (r: u8)
        ensures
            r == self.state.half_move,
    {
        self.state.half_move
    }

    pub fn full_move(&self) -> (r: u16)
        ensures
            r == self.state.full_move,
    {
        self.state.full_move
    }

    pub fn phase(&self) -> (r: isize)
        ensures
            r == self.state.phase,
    {
        self.state.phase
    }

    /// Forgets the moves played.
    pub fn ply_reset(&mut self)
        ensures
            final(self).moves@.len() == 0,
            final(self).squares == old(self).squares,
            final(self).bitboard == old(self).bitboard,
            final(self).state == old(self).state,
            final(self).history@ == old(self).history@,
            final(self).same_tables(old(self)),
    {
        self.moves.clear();
    }

    /// The piece on `sq`, which must hold one.
    pub fn piece_sq(&self, sq: usize) -> (r: Piece)
        requires
            sq < 64,
            self.squares[sq as int] is Some,
        ensures
            self.squares[sq as int] == Some(r),
    {
        match self.squares[sq] {
            Some(piece) => piece,
            None => 0,
        }
    }

    /// The position occurred before since the last capture or pawn move.
    pub fn is_repetition(board: &Board) -> (r: bool)
        requires
            board.history@.len() >= board.state.half_move,
        ensures
            r == exists|i: int| board.history@.len() - board.state.half_move <= i < board.history@.len() && #[trigger] board.history@[i].key == board.state.key,
    {
        let his_len = board.history.len();
        let half_move = board.half_move() as usize;
        let mut i = his_len - half_move;
        while i < his_len
            invariant
                his_len == board.history@.len(),
                his_len - half_move <= i <= his_len,
                half_move == board.state.half_move,
                forall|j: int| his_len - half_move <= j < i ==> #[trigger] board.history@[j].key != board.state.key,
            decreases his_len - i,
        {
            if board.history[i].key == board.key() {
                return true;
            }
            i = i + 1;
        }
        false
    }

    /// The killer move `idx` (0 or 1) of the current ply.
    pub fn get_killer(&self, idx: usize) -> (r: Option<Move>)
        requires
            idx == 0 || idx == 1,
            self.moves@.len() < 64,
        ensures
            r == self.s_killers[self.moves@.len() as int][idx as int],
    {
        self.s_killers[self.ply()][idx]
    }

    /// The bitboard with index `idx`.
    pub fn bitboard(&self, idx: u8) -> (r: u64)
        requires
            idx < 14,
        ensures
            r == self.bitboard[idx as int],
    {
        self.bitboard[idx as usize]
    }
}

} // verus!
