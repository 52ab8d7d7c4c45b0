use vstd::prelude::*;
use vstd::string::StringExecFns;
use crate::board::Board;
use crate::moves::{Flag, Move};
use crate::mv_gen::{BoardGenMoveTrait, gen_ready_spec, gen_ok, lemma_gen_unique};
use crate::piece::{Piece, PieceTrait, char_of_piece, valid_piece, piece_kind, char_to_string};

verus! {

/// The letter of a file.
pub open spec fn file_letter(f: int) -> char {
    if f == 0 {
        'a'
    } else if f == 1 {
        'b'
    } else if f == 2 {
        'c'
    } else if f == 3 {
        'd'
    } else if f == 4 {
        'e'
    } else if f == 5 {
        'f'
    } else if f == 6 {
        'g'
    } else {
        'h'
    }
}

/// The character of a decimal digit.
pub open spec fn digit_char(d: int) -> char {
    if d == 0 {
        '0'
    } else if d == 1 {
        '1'
    } else if d == 2 {
        '2'
    } else if d == 3 {
        '3'
    } else if d == 4 {
        '4'
    } else if d == 5 {
        '5'
    } else if d == 6 {
        '6'
    } else if d == 7 {
        '7'
    } else if d == 8 {
        '8'
    } else {
        '9'
    }
}

/// The decimal writing of a number below one hundred.
pub open spec fn decimal_text(n: int) -> Seq<char> {
    if n < 10 {
        seq![digit_char(n)]
    } else {
        seq![digit_char(n / 10), digit_char(n % 10)]
    }
}

/// The name of a square: its file letter, then its rank number.
pub open spec fn square_text(s: int) -> Seq<char> {
    seq![file_letter(s % 8)] + decimal_text(s / 8 + 1)
}

/// The long algebraic writing of a move: both squares, then the promotion piece's letter.
pub open spec fn move_text(from: int, to: int, promotion: Option<Piece>) -> Seq<char> {
    square_text(from) + square_text(to) + match promotion {
        Some(p) => seq![char_of_piece(p)],
        None => Seq::<char>::empty(),
    }
}

/// The text of a move list: each move's writing, after a space.
pub open spec fn list_text(moves: Seq<Move>) -> Seq<char>
    decreases moves.len(),
{
    if moves.len() == 0 {
        Seq::<char>::empty()
    } else {
        let m = moves.last();
        list_text(moves.drop_last()) + seq![' '] + move_text(m.from as int, m.to as int, m.flag.promo_of())
    }
}

/// The moves of a table row up to its first empty entry.
pub open spec fn leading_moves(row: Seq<Option<Move>>) -> Seq<Move>
    decreases row.len(),
{
    if row.len() == 0 || row[0] is None {
        Seq::<Move>::empty()
    } else {
        seq![row[0]->0] + leading_moves(row.drop_first())
    }
}

impl Flag {
    /// The piece a promotion gives, none for other moves.
    pub open spec fn promo_of(self) -> Option<Piece> {
        match self {
            Flag::Promotion(p, _) => Some(p),
            _ => None,
        }
    }
}

/// The letter of a file index below eight.
fn file_char(f: u8) -> (r: char)
    requires
        f < 8,
    ensures
        r == file_letter(f as int),
{
    match f {
        0 => 'a',
        1 => 'b',
        2 => 'c',
        3 => 'd',
        4 => 'e',
        5 => 'f',
        6 => 'g',
        _ => 'h',
    }
}

/// The character of a digit.
fn digit(d: u8) -> (r: char)
    requires
        d < 10,
    ensures
        r == digit_char(d as int),
{
    match d {
        0 => '0',
        1 => '1',
        2 => '2',
        3 => '3',
        4 => '4',
        5 => '5',
        6 => '6',
        7 => '7',
        8 => '8',
        _ => '9',
    }
}

/// The name of a square, such as "e4": its file letter and its rank number.
pub fn sq_notation(square: u8) -> (r: String)
    ensures
        r@ == square_text(square as int),
{
    let file = square % 8;
    let rank = square / 8 + 1;
    let mut r = char_to_string(file_char(file));
    if rank < 10 {
        r.append(char_to_string(digit(rank)).as_str());
    } else {
        r.append(char_to_string(digit(rank / 10)).as_str());
        r.append(char_to_string(digit(rank % 10)).as_str());
    }
    r
}

/// The long algebraic writing of a move, such as "e2e4" or "a7a8Q".
pub fn move_notation(sq_from: u8, sq_to: u8, promotion: Option<Piece>) -> (r: String)
    requires
        promotion is Some ==> valid_piece(promotion->0),
    ensures
        r@ == move_text(sq_from as int, sq_to as int, promotion),
{
    let mut r = sq_notation(sq_from);
    r.append(sq_notation(sq_to).as_str());
    match promotion {
        Some(piece) => {
            let c = piece.to_char();
            r.append(char_to_string(c).as_str());
        },
        None => {},
    }
    proof {
        if promotion is None {
            assert(r@ == r@ + Seq::<char>::empty());
        }
    }
    r
}

/// A move's promotion piece is a piece.
pub open spec fn promo_valid(m: Move) -> bool {
    m.flag.promo_of() is Some ==> valid_piece(m.flag.promo_of()->0)
}

/// The writing of the first `depth` moves, each after a space.
pub fn get_move_list(moves: &[Move], depth: u8) -> (r: String)
    requires
        forall|i: int| 0 <= i < moves@.len() ==> promo_valid(#[trigger] moves@[i]),
    ensures
        r@ == list_text(moves@.take(if depth < moves@.len() { depth as int } else { moves@.len() as int })),
{
    let mut r = String::new();
    let mut i: usize = 0;
    while i < moves.len()
        invariant
            i <= moves@.len(),
            i <= depth,
            forall|k: int| 0 <= k < moves@.len() ==> promo_valid(#[trigger] moves@[k]),
            r@ == list_text(moves@.take(i as int)),
        ensures
            r@ == list_text(moves@.take(if depth < moves@.len() { depth as int } else { moves@.len() as int })),
        decreases moves@.len() - i,
    {
        if i >= depth as usize {
            break;
        }
        let mv = moves[i];
        let promotion = mv.flag.get_promo_piece();
        proof {
            assert(promo_valid(moves@[i as int]));
        }
        r.append(" ");
        r.append(move_notation(mv.from, mv.to, promotion).as_str());
        proof {
            reveal_strlit(" ");
            assert(moves@.take(i + 1).drop_last() == moves@.take(i as int));
        }
        i = i + 1;
    }
    r
}

/// The writing of the moves of `moves` before its first empty entry, at most `depth` of
/// them, each after a space.
pub fn get_pv_move_list(moves: &[Option<Move>], depth: u8) -> (r: String)
    requires
        forall|i: int| 0 <= i < moves@.len() && moves@[i] is Some ==> promo_valid(#[trigger] moves@[i]->0),
    ensures
        r@ == list_text(leading_moves(moves@).take(if depth < leading_moves(moves@).len() { depth as int } else { leading_moves(moves@).len() as int })),
{
    let mut r = String::new();
    let mut i: usize = 0;
    proof {
        lemma_leading_moves_prefix(moves@, 0);
    }
    loop
        invariant
            i <= moves@.len(),
            i <= depth,
            forall|k: int| 0 <= k < moves@.len() && moves@[k] is Some ==> promo_valid(#[trigger] moves@[k]->0),
            forall|k: int| 0 <= k < i ==> moves@[k] is Some,
            leading_moves(moves@).len() >= i,
            forall|k: int| 0 <= k < i ==> leading_moves(moves@)[k] == moves@[k]->0,
            r@ == list_text(leading_moves(moves@).take(i as int)),
        ensures
            r@ == list_text(leading_moves(moves@).take(if depth < leading_moves(moves@).len() { depth as int } else { leading_moves(moves@).len() as int })),
        decreases moves@.len() - i,
    {
        if i >= moves.len() {
            proof {
                lemma_leading_moves_prefix(moves@, i as int);
            }
            break;
        }
        let mv = match moves[i] {
            Some(mv) => mv,
            None => {
                proof {
                    lemma_leading_moves_prefix(moves@, i as int);
                }
                break;
            },
        };
        if i >= depth as usize {
            break;
        }
        proof {
            lemma_leading_moves_prefix(moves@, i as int + 1);
        }
        let promotion = mv.flag.get_promo_piece();
        r.append(" ");
        r.append(move_notation(mv.from, mv.to, promotion).as_str());
        proof {
            reveal_strlit(" ");
            assert(leading_moves(moves@).take(i + 1).drop_last() == leading_moves(moves@).take(i as int));
        }
        i = i + 1;
    }
    r
}

/// When the first `n` entries hold moves, the leading moves start with them, and there are
/// exactly `n` when the next entry is empty or the row ends.
proof fn lemma_leading_moves_prefix(row: Seq<Option<Move>>, n: int)
    requires
        0 <= n <= row.len(),
        forall|k: int| 0 <= k < n ==> row[k] is Some,
    ensures
        leading_moves(row).len() >= n,
        forall|k: int| 0 <= k < n ==> leading_moves(row)[k] == row[k]->0,
        (n == row.len() || row[n] is None) ==> leading_moves(row).len() == n,
    decreases n,
{
    if n > 0 {
        lemma_leading_moves_prefix(row.drop_first(), n - 1);
        assert forall|k: int| 0 <= k < n implies leading_moves(row)[k] == row[k]->0 by {
            if k > 0 {
                assert(row.drop_first()[k - 1] == row[k]);
            }
        }
    }
}

/// What `str::to_lowercase` gives for a text.
pub uninterp spec fn lowercase_text(s: Seq<char>) -> Seq<char>;

/// A character with its ASCII capital letter made small.
pub open spec fn lower_char(c: char) -> char {
    if 'A' <= c && c <= 'Z' {
        ((c as u32) + 32) as char
    } else {
        c
    }
}

/// A text with its ASCII capital letters made small.
pub open spec fn ascii_lower(t: Seq<char>) -> Seq<char> {
    t.map_values(|c: char| lower_char(c))
}

/// Every character of the text is an ASCII character.
pub open spec fn ascii_text(t: Seq<char>) -> bool {
    forall|i: int| 0 <= i < t.len() ==> (#[trigger] t[i] as u32) < 128
}

/// Calls `str::to_lowercase`, which replaces each character by its lowercase form as Unicode
/// defines it. The contract names the result, a function of the text alone, and says that a
/// text of ASCII characters comes back with its capital letters made small and its other
/// characters kept; of other texts it says nothing more.
#[verifier::external_body]
fn to_lower(s: &str) -> (r: String)
    ensures
        r@ == lowercase_text(s@),
        ascii_text(s@) ==> r@ == ascii_lower(s@),
{
    s.to_lowercase()
}

/// The writing of a move, capital letters made small, is `lowered`.
pub open spec fn notation_matches(m: Move, lowered: Seq<char>) -> bool {
    ascii_lower(move_text(m.from as int, m.to as int, m.flag.promo_of())) == lowered
}

/// The writing of a move on the board is four ASCII characters, five with a promotion piece;
/// its squares and the kind of its promotion piece can be read back once the capital letters
/// are made small.
proof fn lemma_move_text(from: int, to: int, promo: Option<Piece>)
    requires
        0 <= from < 64,
        0 <= to < 64,
        promo is Some ==> valid_piece(promo->0),
    ensures
        ascii_text(move_text(from, to, promo)),
        move_text(from, to, promo).len() == if promo is Some { 5int } else { 4int },
        ascii_lower(move_text(from, to, promo))[0] == file_letter(from % 8),
        ascii_lower(move_text(from, to, promo))[1] == digit_char(from / 8 + 1),
        ascii_lower(move_text(from, to, promo))[2] == file_letter(to % 8),
        ascii_lower(move_text(from, to, promo))[3] == digit_char(to / 8 + 1),
        promo is Some ==> ascii_lower(move_text(from, to, promo))[4] == lower_char(char_of_piece(promo->0)),
{
    let t = move_text(from, to, promo);
    assert(t[0] == file_letter(from % 8));
    assert(t[1] == digit_char(from / 8 + 1));
    assert(t[2] == file_letter(to % 8));
    assert(t[3] == digit_char(to / 8 + 1));
}

/// Two moves on the board whose writings agree once capital letters are made small have the
/// same squares and promote to the same kind of piece, if any.
proof fn lemma_text_parts(m1: Move, m2: Move)
    requires
        m1.from < 64,
        m1.to < 64,
        m2.from < 64,
        m2.to < 64,
        promo_valid(m1),
        promo_valid(m2),
        ascii_lower(move_text(m1.from as int, m1.to as int, m1.flag.promo_of())) == ascii_lower(
            move_text(m2.from as int, m2.to as int, m2.flag.promo_of()),
        ),
    ensures
        m1.from == m2.from,
        m1.to == m2.to,
        (m1.flag.promo_of() is Some) == (m2.flag.promo_of() is Some),
        m1.flag.promo_of() is Some ==> piece_kind(m1.flag.promo_of()->0) == piece_kind(m2.flag.promo_of()->0),
{
    lemma_move_text(m1.from as int, m1.to as int, m1.flag.promo_of());
    lemma_move_text(m2.from as int, m2.to as int, m2.flag.promo_of());
    let t1 = ascii_lower(move_text(m1.from as int, m1.to as int, m1.flag.promo_of()));
    let t2 = ascii_lower(move_text(m2.from as int, m2.to as int, m2.flag.promo_of()));
    assert(t1.len() == t2.len());
    assert(t1[0] == t2[0] && t1[1] == t2[1] && t1[2] == t2[2] && t1[3] == t2[3]);
    assert(m1.from as int % 8 == m2.from as int % 8);
    assert(m1.from as int / 8 == m2.from as int / 8);
    assert(m1.to as int % 8 == m2.to as int % 8);
    assert(m1.to as int / 8 == m2.to as int / 8);
    if m1.flag.promo_of() is Some {
        assert(t1[4] == t2[4]);
    }
}

/// A move the generator produces is named by its writing: no other generated move of the
/// position is written the same way, letter case aside.
pub proof fn lemma_notation_names_one_move(b: &Board, m1: Move, m2: Move)
    requires
        b.wf(),
        gen_ok(b, m1),
        gen_ok(b, m2),
        ascii_lower(move_text(m1.from as int, m1.to as int, m1.flag.promo_of())) == ascii_lower(
            move_text(m2.from as int, m2.to as int, m2.flag.promo_of()),
        ),
    ensures
        m1 == m2,
{
    lemma_text_parts(m1, m2);
    lemma_gen_unique(b, m1, m2);
}


/// The first move of `moves` whose lowercase writing is `lowered`, if any.
pub fn find_notation(lowered: &String, moves: &[Move]) -> (r: Option<Move>)
    requires
        forall|i: int| 0 <= i < moves@.len() ==> promo_valid(#[trigger] moves@[i]),
    ensures
        r is None <==> forall|i: int| 0 <= i < moves@.len() ==> !notation_matches(#[trigger] moves@[i], lowered@),
        r is Some ==> exists|i: int| 0 <= i < moves@.len() && moves@[i] == r->0 && notation_matches(#[trigger] moves@[i], lowered@)
            && forall|j: int| 0 <= j < i ==> !notation_matches(#[trigger] moves@[j], lowered@),
{
    let mut i: usize = 0;
    while i < moves.len()
        invariant
            i <= moves@.len(),
            forall|k: int| 0 <= k < moves@.len() ==> promo_valid(#[trigger] moves@[k]),
            forall|j: int| 0 <= j < i ==> !notation_matches(#[trigger] moves@[j], lowered@),
        decreases moves@.len() - i,
    {
        let mv = moves[i];
        proof {
            assert(promo_valid(moves@[i as int]));
        }
        let text = move_notation(mv.from, mv.to, mv.flag.get_promo_piece());
        let low = to_lower(text.as_str());
        if low == *lowered {
            assert(notation_matches(moves@[i as int], lowered@));
            return Some(mv);
        }
        i = i + 1;
    }
    None
}

/// The generated move of the side to move written `notation` in long algebraic notation,
/// letter case aside; `None` when no generated move is written so. The list of generated
/// moves is emptied and the position is kept.
pub fn from_move_notation(notation: &str, board: &mut Board) -> (r: Option<Move>)
    requires
        old(board).gen_ready(),
        old(board).ply_ok(),
        old(board).gen_moves@.len() == 0,
    ensures
        final(board).squares == old(board).squares,
        final(board).bitboard == old(board).bitboard,
        final(board).state == old(board).state,
        final(board).moves@ == old(board).moves@,
        final(board).history@ == old(board).history@,
        final(board).gen_moves@.len() == 0,
        r is Some ==> crate::mv_gen::gen_ok(old(board), r->0) && notation_matches(r->0, lowercase_text(notation@)),
        r is None <==> forall|m: Move| #[trigger] crate::mv_gen::gen_ok(old(board), m) ==> !notation_matches(m, lowercase_text(notation@)),
        forall|m: Move| #[trigger] crate::mv_gen::gen_ok(old(board), m) && notation@ == move_text(m.from as int, m.to as int, m.flag.promo_of())
            ==> r == Some(m),
{
    let lowered = to_lower(notation);
    let moves = board.gen_moves();
    proof {
        assert forall|i: int| 0 <= i < moves@.len() implies promo_valid(#[trigger] moves@[i]) by {
            assert(crate::mv_gen::gen_ok(old(board), moves@[i]));
        }
    }
    let r = find_notation(&lowered, moves.as_slice());
    proof {
        if r is None {
            assert forall|m: Move| #[trigger] crate::mv_gen::gen_ok(old(board), m) implies !notation_matches(m, lowercase_text(notation@)) by {
                assert(moves@.contains(m));
                let i = choose|i: int| 0 <= i < moves@.len() && moves@[i] == m;
                assert(!notation_matches(moves@[i], lowered@));
            }
        } else {
            let i = choose|i: int| 0 <= i < moves@.len() && moves@[i] == r->0 && notation_matches(#[trigger] moves@[i], lowered@)
                && forall|j: int| 0 <= j < i ==> !notation_matches(#[trigger] moves@[j], lowered@);
            assert(crate::mv_gen::gen_ok(old(board), moves@[i]));
        }
        assert forall|m: Move| #[trigger] crate::mv_gen::gen_ok(old(board), m) && notation@ == move_text(m.from as int, m.to as int, m.flag.promo_of())
            implies r == Some(m) by {
            lemma_move_text(m.from as int, m.to as int, m.flag.promo_of());
            assert(notation_matches(m, lowered@));
            let m2 = r->0;
            assert(notation_matches(m2, lowered@));
            lemma_notation_names_one_move(old(board), m, m2);
        }
    }
    r
}

} // verus!
