use vstd::prelude::*;
use crate::bits::Bitboard;
use crate::board::{Board, BoardState, FEN_START};
use crate::castling::{Castling, CASTLING_NONE};
use crate::fen::fen_board;
use crate::moves::Move;
use crate::piece::{Piece, Color, WHITE};
use vstd::string::StringSliceAdditionalSpecFns;

verus! {

/// A position with the moves that led to it, each move beside the state it left.
pub struct Game {
    pub squares: [Option<Piece>; 64],
    pub bitboard: [Bitboard; 14],
    pub pos_rev: Vec<Move>,
    pub pos_irr: Vec<BoardState>,
    pub key: u64,
    pub color: Color,
    pub castling: Castling,
    pub ep: Option<u8>,
    pub half_move: u8,
    pub full_move: u16,
    pub ply: usize,
    pub s_history: [[u64; 64]; 14],
    pub s_killers: [[Option<Move>; 2]; 64],
    pub pv: Vec<Move>,
}

impl Game {
    /// The game holds the position of `b` with no move played.
    pub open spec fn holds_board(&self, b: &Board) -> bool {
        &&& self.squares == b.squares
        &&& self.bitboard == b.bitboard
        &&& self.key == b.state.key
        &&& self.color == b.state.color
        &&& self.castling == b.state.castling
        &&& self.ep == b.state.ep
        &&& self.half_move == b.state.half_move
        &&& self.full_move == b.state.full_move
        &&& self.pos_rev@.len() == 0
        &&& self.pos_irr@.len() == 0
        &&& self.ply == 0
    }

    /// The empty position of a new game: no piece, white to move, no rights, move one.
    pub open spec fn is_empty_game(&self) -> bool {
        &&& forall|s: int| 0 <= s < 64 ==> self.squares[s] is None
        &&& forall|i: int| 0 <= i < 14 ==> self.bitboard[i] == 0
        &&& self.color == WHITE
        &&& self.castling == CASTLING_NONE
        &&& self.ep is None
        &&& self.half_move == 0
        &&& self.full_move == 1
        &&& self.pos_rev@.len() == 0
        &&& self.pos_irr@.len() == 0
    }

    /// A game at the start position.
    pub fn initialize() -> (r: Game)
        ensures
            exists|b: Board| fen_board(FEN_START.spec_bytes(), &b) && #[trigger] r.holds_board(&b),
    {
        let b = Board::initialize();
        let r = Game {
            squares: b.squares,
            bitboard: b.bitboard,
            pos_rev: Vec::with_capacity(1024),
            pos_irr: Vec::with_capacity(1024),
            key: b.state.key,
            color: b.state.color,
            castling: b.state.castling,
            ep: b.state.ep,
            half_move: b.state.half_move,
            full_move: b.state.full_move,
            ply: 0,
            s_history: [[0u64; 64]; 14],
            s_killers: [[None; 2]; 64],
            pv: Vec::new(),
        };
        assert(r.holds_board(&b));
        r
    }

    /// A game with an empty board, white to move.
    pub fn create_board() -> (r: Self)
        ensures
            r.is_empty_game(),
            r.key == 0,
            r.ply == 0,
            r.pv@.len() == 0,
            forall|p: int, s: int| 0 <= p < 14 && 0 <= s < 64 ==> r.s_history[p][s] == 0,
            forall|s: int, k: int| 0 <= s < 64 && 0 <= k < 2 ==> r.s_killers[s][k] is None,
    {
        Self {
            squares: [None; 64],
            bitboard: [0; 14],
            color: WHITE,
            castling: CASTLING_NONE,
            ep: None,
            half_move: 0,
            full_move: 1,
            key: 0,
            pos_rev: Vec::with_capacity(1024),
            pos_irr: Vec::with_capacity(1024),
            s_history: [[0u64; 64]; 14],
            s_killers: [[None; 2]; 64],
            ply: 0,
            pv: Vec::new(),
        }
    }

    /// Empties the board and forgets the moves played; the key, the ply count and the
    /// search tables are kept.
    pub fn reset_board(&mut self)
        ensures
            final(self).is_empty_game(),
            final(self).key == old(self).key,
            final(self).ply == old(self).ply,
            final(self).s_history == old(self).s_history,
            final(self).s_killers == old(self).s_killers,
            final(self).pv@ == old(self).pv@,
    {
        self.squares = [None; 64];
        self.bitboard = [0; 14];
        self.color = WHITE;
        self.castling = CASTLING_NONE;
        self.ep = None;
        self.half_move = 0;
        self.full_move = 1;
        self.pos_rev = Vec::with_capacity(1024);
        self.pos_irr = Vec::with_capacity(1024);
    }

    /// The bitboard of index `idx`: a color (0, 1) or a piece (2 to 13).
    pub fn bitboard(&self, idx: u8) -> (r: u64)
        requires
            idx < 14,
        ensures
            r == self.bitboard[idx as int],
    {
        self.bitboard[idx as usize]
    }
}

} // verus!
