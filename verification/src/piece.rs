use vstd::prelude::*;

verus! {

/// Side to move or owning side: 0 for white, 1 for black.
pub type Color = u8;

pub const WHITE: Color = 0;

pub const BLACK: Color = 1;

/// A piece: its kind (an even number from 2 to 12) plus its color.
pub type Piece = u8;

pub const EMPTY: Piece = 0;

pub const PAWN: Piece = 2;

pub const KNIGHT: Piece = 4;

pub const KING: Piece = 6;

pub const BISHOP: Piece = 8;

pub const ROOK: Piece = 10;

pub const QUEEN: Piece = 12;

pub const WHITE_PAWN: Piece = 2;

pub const WHITE_KNIGHT: Piece = 4;

pub const WHITE_KING: Piece = 6;

pub const WHITE_BISHOP: Piece = 8;

pub const WHITE_ROOK: Piece = 10;

pub const WHITE_QUEEN: Piece = 12;

pub const BLACK_PAWN: Piece = 3;

pub const BLACK_KNIGHT: Piece = 5;

pub const BLACK_KING: Piece = 7;

pub const BLACK_BISHOP: Piece = 9;

pub const BLACK_ROOK: Piece = 11;

pub const BLACK_QUEEN: Piece = 13;

pub const PIECES: [Piece; 6] = [PAWN, KNIGHT, BISHOP, ROOK, QUEEN, KING];

pub const PIECES_WITHOUT_PAWN: [Piece; 5] = [KNIGHT, BISHOP, ROOK, QUEEN, KING];

/// The pieces that have a mobility: knight, bishop, rook and queen.
pub const PIECES_WITHOUT_PAWN_KING: [Piece; 4] = [KNIGHT, BISHOP, ROOK, QUEEN];

pub const PROMO_PIECES: [Piece; 4] = [KNIGHT, BISHOP, ROOK, QUEEN];

/// A piece of a color: a value from 2 to 13.
pub open spec fn valid_piece(p: u8) -> bool {
    2 <= p < 14
}

/// The color of a piece.
pub open spec fn piece_color(p: u8) -> u8 {
    p % 2
}

/// The kind of a piece, without its color.
pub open spec fn piece_kind(p: u8) -> u8 {
    (p - p % 2) as u8
}

/// The other side.
pub open spec fn opp_color(c: u8) -> u8 {
    if c == 0 {
        1
    } else {
        0
    }
}

/// Material weight of a piece kind, by its table index (kind / 2 - 1).
pub open spec fn piece_weight_spec(kind: u8) -> isize {
    if kind == PAWN {
        100
    } else if kind == KNIGHT {
        325
    } else if kind == KING {
        20000
    } else if kind == BISHOP {
        350
    } else if kind == ROOK {
        500
    } else {
        900
    }
}

proof fn bv_piece(p: u8)
    by (bit_vector)
    requires
        p < 16,
    ensures
        p & 1u8 == p % 2,
        p & 14u8 == p - p % 2,
        p ^ 1u8 == if p % 2 == 0 {
            (p + 1) as u8
        } else {
            (p - 1) as u8
        },
{
}

/// Changing the lowest bit of a piece value gives the same kind of the other side.
pub proof fn lemma_piece_swap(p: u8)
    requires
        p < 16,
    ensures
        p ^ 1u8 == if p % 2 == 0 {
            (p + 1) as u8
        } else {
            (p - 1) as u8
        },
{
    bv_piece(p);
}

/// The color of a piece value is its lowest bit.
pub proof fn lemma_piece_color_mod(p: u8)
    requires
        p < 16,
    ensures
        p & 1 == p % 2,
        p & 14 == p - p % 2,
{
    bv_piece(p);
}

pub trait ColorTrait: Sized {
    fn opposite(&self) -> Self;

    fn clr_idx(&self) -> usize;

    fn is_white(&self) -> bool;

    fn is_black(&self) -> bool;

    fn sign(&self) -> isize;

    fn switch(&mut self);
}

impl ColorTrait for Color {
    /// The other side.
    fn opposite(&self) -> (r: Color)
        ensures
            r == opp_color(*self),
    {
        if *self == WHITE {
            BLACK
        } else {
            WHITE
        }
    }

    /// The color as an array index.
    fn clr_idx(&self) -> (r: usize)
        ensures
            r == *self,
    {
        *self as usize
    }

    fn is_white(&self) -> (r: bool)
        ensures
            r == (*self == WHITE),
    {
        *self == WHITE
    }

    fn is_black(&self) -> (r: bool)
        ensures
            r == (*self == BLACK),
    {
        *self == BLACK
    }

    /// 1 for white, -1 for black: the direction in which the side's pawns move.
    fn sign(&self) -> (r: isize)
        ensures
            r == if *self == WHITE {
                1isize
            } else {
                -1isize
            },
    {
        if *self == WHITE {
            1
        } else {
            -1
        }
    }

    /// Switches to the other side.
    fn switch(&mut self)
        ensures
            *final(self) == opp_color(*old(self)),
    {
        *self = self.opposite();
    }
}

pub trait PieceTrait: Sized {
    /// The value stands for a piece of a color.
    spec fn is_colored_piece(&self) -> bool;

    fn color(&self) -> Color;

    fn kind(&self) -> Piece;

    fn idx(&self) -> usize;

    fn arr_idx(&self) -> usize
        requires
            self.is_colored_piece(),
    ;

    fn is_pawn(&self) -> bool;

    fn is_knight(&self) -> bool;

    fn is_bishop(&self) -> bool;

    fn is_rook(&self) -> bool;

    fn is_queen(&self) -> bool;

    fn is_king(&self) -> bool;

    fn weight(&self) -> isize
        requires
            self.is_colored_piece(),
    ;

    fn from_char(c: char) -> Self;

    fn to_char(&self) -> char
        requires
            self.is_colored_piece(),
    ;

    fn to_figure(&self) -> String;

    fn change_color(&mut self);

    fn opp(&self) -> Self;
}

/// The piece that a FEN letter stands for, EMPTY for any other character.
pub open spec fn piece_of_char(c: char) -> u8 {
    if c == 'P' {
        WHITE_PAWN
    } else if c == 'N' {
        WHITE_KNIGHT
    } else if c == 'B' {
        WHITE_BISHOP
    } else if c == 'R' {
        WHITE_ROOK
    } else if c == 'Q' {
        WHITE_QUEEN
    } else if c == 'K' {
        WHITE_KING
    } else if c == 'p' {
        BLACK_PAWN
    } else if c == 'n' {
        BLACK_KNIGHT
    } else if c == 'b' {
        BLACK_BISHOP
    } else if c == 'r' {
        BLACK_ROOK
    } else if c == 'q' {
        BLACK_QUEEN
    } else if c == 'k' {
        BLACK_KING
    } else {
        EMPTY
    }
}

/// The FEN letter of a piece: upper case for white, lower case for black.
pub open spec fn char_of_piece(p: u8) -> char {
    if p == WHITE_PAWN {
        'P'
    } else if p == WHITE_KNIGHT {
        'N'
    } else if p == WHITE_BISHOP {
        'B'
    } else if p == WHITE_ROOK {
        'R'
    } else if p == WHITE_QUEEN {
        'Q'
    } else if p == WHITE_KING {
        'K'
    } else if p == BLACK_PAWN {
        'p'
    } else if p == BLACK_KNIGHT {
        'n'
    } else if p == BLACK_BISHOP {
        'b'
    } else if p == BLACK_ROOK {
        'r'
    } else if p == BLACK_QUEEN {
        'q'
    } else {
        'k'
    }
}

/// The figure that stands for a piece on a printed board.
pub open spec fn figure_of_piece(p: u8) -> Seq<char> {
    if p == WHITE_PAWN {
        seq!['\u{265F}']
    } else if p == WHITE_KNIGHT {
        seq!['\u{265E}']
    } else if p == WHITE_BISHOP {
        seq!['\u{265D}']
    } else if p == WHITE_ROOK {
        seq!['\u{265C}']
    } else if p == WHITE_QUEEN {
        seq!['\u{265B}']
    } else if p == WHITE_KING {
        seq!['\u{265A}']
    } else if p == BLACK_PAWN {
        seq!['\u{2659}']
    } else if p == BLACK_KNIGHT {
        seq!['\u{2658}']
    } else if p == BLACK_BISHOP {
        seq!['\u{2657}']
    } else if p == BLACK_ROOK {
        seq!['\u{2656}']
    } else if p == BLACK_QUEEN {
        seq!['\u{2655}']
    } else if p == BLACK_KING {
        seq!['\u{2654}']
    } else if p == EMPTY {
        seq![' ']
    } else {
        seq!['?']
    }
}

/// Calls `ToString::to_string` on a `char`, which gives the string that holds that character
/// alone; the contract says so.
#[verifier::external_body]
pub(crate) fn char_to_string(c: char) -> (r: String)
    ensures
        r@ == seq![c],
{
    c.to_string()
}

impl PieceTrait for Piece {
    open spec fn is_colored_piece(&self) -> bool {
        valid_piece(*self)
    }

    /// The color of the piece.
    fn color(&self) -> (r: Color)
        ensures
            *self < 16 ==> r == piece_color(*self),
            r < 2,
    {
        proof {
            if *self < 16 {
                bv_piece(*self);
            }
            let x = *self;
            assert(x & 1u8 < 2) by (bit_vector);
        }
        *self & 1
    }

    /// The kind of the piece, without its color.
    fn kind(&self) -> (r: Piece)
        ensures
            *self < 16 ==> r == piece_kind(*self),
    {
        proof {
            if *self < 16 {
                bv_piece(*self);
            }
        }
        *self & 14
    }

    /// The piece as an index into the board's bitboards.
    fn idx(&self) -> (r: usize)
        ensures
            r == *self,
    {
        *self as usize
    }

    /// The piece kind as an index into the evaluation tables.
    fn arr_idx(&self) -> (r: usize)
        ensures
            r == piece_kind(*self) / 2 - 1,
    {
        (self.kind() / 2 - 1) as usize
    }

    fn is_pawn(&self) -> (r: bool)
        ensures
            *self < 16 ==> r == (piece_kind(*self) == PAWN),
    {
        self.kind() == PAWN
    }

    fn is_knight(&self) -> (r: bool)
        ensures
            *self < 16 ==> r == (piece_kind(*self) == KNIGHT),
    {
        self.kind() == KNIGHT
    }

    fn is_bishop(&self) -> (r: bool)
        ensures
            *self < 16 ==> r == (piece_kind(*self) == BISHOP),
    {
        self.kind() == BISHOP
    }

    fn is_rook(&self) -> (r: bool)
        ensures
            *self < 16 ==> r == (piece_kind(*self) == ROOK),
    {
        self.kind() == ROOK
    }

    fn is_queen(&self) -> (r: bool)
        ensures
            *self < 16 ==> r == (piece_kind(*self) == QUEEN),
    {
        self.kind() == QUEEN
    }

    fn is_king(&self) -> (r: bool)
        ensures
            *self < 16 ==> r == (piece_kind(*self) == KING),
    {
        self.kind() == KING
    }

    /// The material weight of the piece kind.
    fn weight(&self) -> (r: isize)
        ensures
            r == piece_weight_spec(piece_kind(*self)),
    {
        match self.kind() {
            PAWN => 100,
            KNIGHT => 325,
            KING => 20000,
            BISHOP => 350,
            ROOK => 500,
            _ => 900,
        }
    }

    /// The piece that a FEN letter stands for, EMPTY for any other character.
    fn from_char(c: char) -> (r: Piece)
        ensures
            r == piece_of_char(c),
    {
        match c {
            'P' => WHITE_PAWN,
            'N' => WHITE_KNIGHT,
            'B' => WHITE_BISHOP,
            'R' => WHITE_ROOK,
            'Q' => WHITE_QUEEN,
            'K' => WHITE_KING,
            'p' => BLACK_PAWN,
            'n' => BLACK_KNIGHT,
            'b' => BLACK_BISHOP,
            'r' => BLACK_ROOK,
            'q' => BLACK_QUEEN,
            'k' => BLACK_KING,
            _ => EMPTY,
        }
    }

    /// The FEN letter of the piece.
    fn to_char(&self) -> (r: char)
        ensures
            r == char_of_piece(*self),
    {
        match *self {
            WHITE_PAWN => 'P',
            WHITE_KNIGHT => 'N',
            WHITE_BISHOP => 'B',
            WHITE_ROOK => 'R',
            WHITE_QUEEN => 'Q',
            WHITE_KING => 'K',
            BLACK_PAWN => 'p',
            BLACK_KNIGHT => 'n',
            BLACK_BISHOP => 'b',
            BLACK_ROOK => 'r',
            BLACK_QUEEN => 'q',
            _ => 'k',
        }
    }

    /// The figure that stands for the piece on a printed board.
    fn to_figure(&self) -> (r: String)
        ensures
            r@ == figure_of_piece(*self),
    {
        let c = match *self {
            WHITE_PAWN => '\u{265F}',
            WHITE_KNIGHT => '\u{265E}',
            WHITE_BISHOP => '\u{265D}',
            WHITE_ROOK => '\u{265C}',
            WHITE_QUEEN => '\u{265B}',
            WHITE_KING => '\u{265A}',
            BLACK_PAWN => '\u{2659}',
            BLACK_KNIGHT => '\u{2658}',
            BLACK_BISHOP => '\u{2657}',
            BLACK_ROOK => '\u{2656}',
            BLACK_QUEEN => '\u{2655}',
            BLACK_KING => '\u{2654}',
            EMPTY => ' ',
            _ => '?',
        };
        char_to_string(c)
    }

    /// Gives the piece to the other side.
    fn change_color(&mut self)
        ensures
            *old(self) < 16 ==> *final(self) == if piece_color(*old(self)) == 0 {
                (*old(self) + 1) as u8
            } else {
                (*old(self) - 1) as u8
            },
    {
        proof {
            if *self < 16 {
                bv_piece(*self);
            }
        }
        *self = *self ^ 1;
    }

    /// The same piece kind of the other side.
    fn opp(&self) -> (r: Piece)
        ensures
            r == *self ^ 1,
            *self < 16 ==> r == if piece_color(*self) == 0 {
                (*self + 1) as u8
            } else {
                (*self - 1) as u8
            },
    {
        proof {
            if *self < 16 {
                bv_piece(*self);
            }
        }
        *self ^ 1
    }
}

} // verus!
