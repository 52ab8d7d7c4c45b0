use vstd::prelude::*;
use crate::piece::Piece;

verus! {

/// What a move does besides moving its piece.
#[derive(Debug, PartialEq, Eq, Clone, Copy, Structural)]
pub enum Flag {
    Quiet,
    KingCastle,
    QueenCastle,
    Capture(Piece),
    EP,
    Promotion(Piece, Option<Piece>),
    NullMove,
}

impl Flag {
    /// The move takes a piece.
    pub fn is_capture(&self) -> (r: bool)
        ensures
            r == (*self is Capture || *self is EP || (*self is Promotion && self->Promotion_1 is Some)),
    {
        match *self {
            Flag::Capture(_) | Flag::EP | Flag::Promotion(_, Some(_)) => true,
            _ => false,
        }
    }

    /// The move promotes a pawn.
    pub fn is_promo(&self) -> (r: bool)
        ensures
            r == (*self is Promotion),
    {
        match *self {
            Flag::Promotion(_, _) => true,
            _ => false,
        }
    }

    /// The piece a pawn promotes to.
    pub fn get_promo_piece(&self) -> (r: Option<Piece>)
        ensures
            *self is Promotion ==> r == Some(self->Promotion_0),
            !(*self is Promotion) ==> r.is_none(),
    {
        match *self {
            Flag::Promotion(piece, _) => Some(piece),
            _ => None,
        }
    }
}

/// A move: the piece that moves from one square to another, and what else it does.
#[derive(Debug, PartialEq, Eq, Clone, Copy, Structural)]
pub struct Move {
    pub from: u8,
    pub to: u8,
    pub piece: Piece,
    pub flag: Flag,
}

impl Move {
    pub fn init(from: u8, to: u8, piece: Piece, flag: Flag) -> (r: Self)
        ensures
            r == (Move { from, to, piece, flag }),
    {
        Self { from, to, piece, flag }
    }

    /// The move that passes the turn.
    pub fn null_move() -> (r: Self)
        ensures
            r == (Move { from: 0, to: 0, piece: 0, flag: Flag::NullMove }),
    {
        Self { from: 0, to: 0, piece: 0, flag: Flag::NullMove }
    }
}

/// A move together with the key of the position it was played in.
pub struct ExtendedMove {
    pub mv: Move,
    pub key: u64,
}

} // verus!
