use vstd::prelude::*;
use crate::bits::{BitboardTrait, has_bit};
use crate::board::Board;
use crate::piece::{PieceTrait, figure_of_piece, char_to_string};

verus! {

/// The text of the cell `idx` of a printed bitboard: "X" on the marked square, "O" on the
/// squares of the bitboard, a blank elsewhere.
pub open spec fn bitboard_cell(bitboard: u64, mark: Option<i8>, idx: int) -> Seq<char> {
    if mark is Some && mark->0 >= 0 && mark->0 == idx {
        seq!['X']
    } else if has_bit(bitboard, idx as u64) {
        seq!['O']
    } else {
        seq![' ']
    }
}

/// The text of the cell `idx` of a printed position: the figure of its piece, a blank for
/// an empty square.
pub open spec fn chess_cell(board: &Board, idx: int) -> Seq<char> {
    match board.squares[idx] {
        Some(p) => figure_of_piece(p),
        None => seq![' '],
    }
}

/// The 64 cells of a printed bitboard, square by square.
pub fn bitboard_cells(bitboard: u64, mark: Option<i8>) -> (r: Vec<String>)
    ensures
        r@.len() == 64,
        forall|i: int| 0 <= i < 64 ==> (#[trigger] r@[i])@ == bitboard_cell(bitboard, mark, i),
{
    let mut r: Vec<String> = Vec::new();
    let mut idx: usize = 0;
    while idx < 64
        invariant
            idx <= 64,
            r@.len() == idx,
            forall|i: int| 0 <= i < idx ==> (#[trigger] r@[i])@ == bitboard_cell(bitboard, mark, i),
        decreases 64 - idx,
    {
        let marked = match mark {
            Some(x) => x >= 0 && x as usize == idx,
            None => false,
        };
        let cell = if marked {
            char_to_string('X')
        } else if bitboard.is_set(idx) {
            char_to_string('O')
        } else {
            char_to_string(' ')
        };
        r.push(cell);
        idx = idx + 1;
    }
    r
}

/// The 64 cells of a printed position, square by square.
pub fn chess_cells(board: &Board) -> (r: Vec<String>)
    ensures
        r@.len() == 64,
        forall|i: int| 0 <= i < 64 ==> (#[trigger] r@[i])@ == chess_cell(board, i),
{
    let mut r: Vec<String> = Vec::new();
    let mut idx: usize = 0;
    while idx < 64
        invariant
            idx <= 64,
            r@.len() == idx,
            forall|i: int| 0 <= i < idx ==> (#[trigger] r@[i])@ == chess_cell(board, i),
        decreases 64 - idx,
    {
        let cell = match board.squares[idx] {
            Some(piece) => piece.to_figure(),
            None => char_to_string(' '),
        };
        r.push(cell);
        idx = idx + 1;
    }
    r
}

} // verus!
