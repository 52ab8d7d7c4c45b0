use vstd::prelude::*;
use vstd::string::StringSliceAdditionalSpecFns;
use vstd::string::is_ascii;
use crate::board::{Board, BoardState, empty_state, FEN_START};
use crate::castling::{Castling, CastlingRightsTrait, CASTLING_WKINGSIDE, CASTLING_WQUEENSIDE, CASTLING_BKINGSIDE, CASTLING_BQUEENSIDE};
use crate::make_move::BoardMoveTrait;
use crate::piece::{Piece, PieceTrait, Color, valid_piece, piece_of_char, WHITE, BLACK};
use crate::zobrist::{position_hash, squares_hash, color_key, castle_key, opt_ep_key, lemma_xor, ZobristKeysTrait};

verus! {

/// The parts of `s` between the separators `sep`, in order (a string without separator
/// has one part).
pub open spec fn split_on(s: Seq<u8>, sep: u8) -> Seq<Seq<u8>>
    decreases s.len(),
{
    if s.len() == 0 {
        seq![seq![]]
    } else {
        let rest = split_on(s.drop_last(), sep);
        if s.last() == sep {
            rest.push(seq![])
        } else {
            rest.update(rest.len() - 1, rest.last().push(s.last()))
        }
    }
}

/// Splitting always gives at least one part.
proof fn lemma_split_nonempty(s: Seq<u8>, sep: u8)
    ensures
        split_on(s, sep).len() >= 1,
    decreases s.len(),
{
    if s.len() > 0 {
        lemma_split_nonempty(s.drop_last(), sep);
    }
}

/// A text without separator is its only part.
pub proof fn lemma_split_none(s: Seq<u8>, sep: u8)
    requires
        forall|i: int| 0 <= i < s.len() ==> #[trigger] s[i] != sep,
    ensures
        split_on(s, sep) == seq![s],
    decreases s.len(),
{
    if s.len() > 0 {
        lemma_split_none(s.drop_last(), sep);
        assert(s.drop_last().push(s.last()) =~= s);
        assert(split_on(s, sep) =~= seq![s]);
    } else {
        assert(s =~= seq![]);
    }
}

/// The parts of two texts joined by a separator are the parts of the first, then those of
/// the second.
pub proof fn lemma_split_join(a: Seq<u8>, b: Seq<u8>, sep: u8)
    ensures
        split_on(a.push(sep) + b, sep) == split_on(a, sep) + split_on(b, sep),
    decreases b.len(),
{
    let s = a.push(sep) + b;
    lemma_split_nonempty(a, sep);
    if b.len() == 0 {
        assert(s =~= a.push(sep));
        assert(s.drop_last() =~= a);
        assert(split_on(s, sep) =~= split_on(a, sep) + split_on(b, sep));
    } else {
        lemma_split_join(a, b.drop_last(), sep);
        lemma_split_nonempty(b.drop_last(), sep);
        assert(s.drop_last() =~= a.push(sep) + b.drop_last());
        assert(s.last() == b.last());
        let ra = split_on(a, sep);
        let rb = split_on(b.drop_last(), sep);
        assert(split_on(s.drop_last(), sep) == ra + rb);
        if b.last() == sep {
            assert(split_on(s, sep) =~= ra + split_on(b, sep));
        } else {
            assert(split_on(s, sep) =~= ra + split_on(b, sep));
        }
    }
}

/// A digit from 1 to 8: that many empty squares.
pub open spec fn is_gap_digit(c: u8) -> bool {
    0x31 <= c <= 0x38
}

/// The piece that a FEN byte stands for, 0 for any other byte.
pub open spec fn piece_of_byte(c: u8) -> u8 {
    piece_of_char(c as char)
}

/// A byte of a row of the position field.
pub open spec fn is_row_byte(c: u8) -> bool {
    is_gap_digit(c) || piece_of_byte(c) != 0
}

/// What stands on the squares of a row, from its first character on.
pub open spec fn row_cells(r: Seq<u8>) -> Seq<Option<u8>>
    decreases r.len(),
{
    if r.len() == 0 {
        seq![]
    } else {
        let c = r.last();
        let pre = row_cells(r.drop_last());
        if is_gap_digit(c) {
            pre + Seq::new((c - 0x30) as nat, |i: int| None)
        } else {
            pre.push(Some(piece_of_byte(c)))
        }
    }
}

/// What stands on the squares of the rows, the last row lowest.
pub open spec fn rows_cells(rows: Seq<Seq<u8>>) -> Seq<Option<u8>>
    decreases rows.len(),
{
    if rows.len() == 0 {
        seq![]
    } else {
        row_cells(rows.last()) + rows_cells(rows.drop_last())
    }
}

/// The position field is well formed: at most eight rows of digits and piece letters that
/// fill at most the 64 squares.
pub open spec fn position_valid(p: Seq<u8>) -> bool {
    let rows = split_on(p, 0x2f);
    &&& rows.len() <= 8
    &&& forall|i: int| 0 <= i < p.len() ==> p[i] == 0x2f || is_row_byte(#[trigger] p[i])
    &&& rows_cells(rows).len() <= 64
}

/// What stands on each square after the position field is read: the rows are laid from
/// square 63 down, each from its first character on, and the squares below them stay empty.
pub open spec fn placement(p: Seq<u8>) -> Seq<Option<u8>> {
    let cells = rows_cells(split_on(p, 0x2f));
    Seq::new((64 - cells.len()) as nat, |i: int| None) + cells
}

/// The side to move that the color field names.
pub open spec fn color_of_field(f: Seq<u8>) -> Option<u8> {
    if f == seq![0x77u8] {
        Some(WHITE)
    } else if f == seq![0x62u8] {
        Some(BLACK)
    } else {
        None
    }
}

/// The castling right a byte of the castling field adds (`-` adds none).
pub open spec fn right_of_byte(c: u8) -> Option<u8> {
    if c == 0x4b {
        Some(CASTLING_WKINGSIDE)
    } else if c == 0x51 {
        Some(CASTLING_WQUEENSIDE)
    } else if c == 0x6b {
        Some(CASTLING_BKINGSIDE)
    } else if c == 0x71 {
        Some(CASTLING_BQUEENSIDE)
    } else if c == 0x2d {
        Some(0u8)
    } else {
        None
    }
}

/// The rights the castling field names; `None` when it holds another byte.
pub open spec fn castling_of_field(f: Seq<u8>) -> Option<u8>
    decreases f.len(),
{
    if f.len() == 0 {
        Some(0u8)
    } else {
        match (castling_of_field(f.drop_last()), right_of_byte(f.last())) {
            (Some(r), Some(x)) => Some(r | x),
            _ => None,
        }
    }
}

/// The en passant field: `-` for none, else a file letter and a rank digit.
pub open spec fn ep_of_field(f: Seq<u8>) -> Option<Option<u8>> {
    if f == seq![0x2du8] {
        Some(None)
    } else if f.len() == 2 && 0x61 <= f[0] <= 0x68 && 0x31 <= f[1] <= 0x38 {
        Some(Some(((f[1] - 0x31) * 8 + (f[0] - 0x61)) as u8))
    } else {
        None
    }
}

/// The number the decimal digits `d` stand for.
pub open spec fn dec_value(d: Seq<u8>) -> nat
    decreases d.len(),
{
    if d.len() == 0 {
        0
    } else {
        dec_value(d.drop_last()) * 10 + (d.last() - 0x30) as nat
    }
}

/// The bytes are all decimal digits.
pub open spec fn all_digits(d: Seq<u8>) -> bool {
    forall|i: int| 0 <= i < d.len() ==> 0x30 <= #[trigger] d[i] <= 0x39
}

/// The digits of a number field, after an optional `+`.
pub open spec fn number_digits(f: Seq<u8>) -> Seq<u8> {
    if f.len() > 0 && f[0] == 0x2b {
        f.drop_first()
    } else {
        f
    }
}

/// The number a field holds, as Rust reads an unsigned number: an optional `+`, then at
/// least one digit, with a value of at most `max`.
pub open spec fn number_of_field(f: Seq<u8>, max: nat) -> Option<nat> {
    let d = number_digits(f);
    if d.len() > 0 && all_digits(d) && dec_value(d) <= max {
        Some(dec_value(d))
    } else {
        None
    }
}

/// The text is a FEN record as read here: six fields separated by single spaces, each
/// well formed.
pub open spec fn fen_valid(b: Seq<u8>) -> bool {
    let f = split_on(b, 0x20);
    &&& f.len() == 6
    &&& position_valid(f[0])
    &&& color_of_field(f[1]) is Some
    &&& castling_of_field(f[2]) is Some
    &&& ep_of_field(f[3]) is Some
    &&& number_of_field(f[4], 255) is Some
    &&& number_of_field(f[5], 65535) is Some
}

/// A row without digits has a square for each of its bytes.
proof fn lemma_row_len(r: Seq<u8>)
    ensures
        (forall|i: int| 0 <= i < r.len() ==> !is_gap_digit(#[trigger] r[i])) ==> row_cells(r).len() == r.len(),
    decreases r.len(),
{
    if r.len() > 0 {
        lemma_row_len(r.drop_last());
        if forall|i: int| 0 <= i < r.len() ==> !is_gap_digit(#[trigger] r[i]) {
            assert forall|i: int| 0 <= i < r.drop_last().len() implies !is_gap_digit(#[trigger] r.drop_last()[i]) by {
                assert(r.drop_last()[i] == r[i]);
            }
            assert(!is_gap_digit(r[r.len() - 1]));
        }
    }
}

/// The text of the start position is a FEN record as read here.
pub proof fn lemma_start_valid()
    ensures
        fen_valid(FEN_START.spec_bytes()),
{
    reveal_strlit("rnbqkbnr/pppppppp/8/8/8/8/PPPPPPPP/RNBQKBNR w KQkq - 0 1");
    assert(is_ascii(FEN_START));
    vstd::string::is_ascii_spec_bytes(FEN_START);
    let ra: Seq<u8> = seq![0x72u8, 0x6eu8, 0x62u8, 0x71u8, 0x6bu8, 0x62u8, 0x6eu8, 0x72u8];
    let rb: Seq<u8> = seq![0x70u8, 0x70u8, 0x70u8, 0x70u8, 0x70u8, 0x70u8, 0x70u8, 0x70u8];
    let rc: Seq<u8> = seq![0x38u8];
    let rd: Seq<u8> = seq![0x38u8];
    let re: Seq<u8> = seq![0x38u8];
    let rf: Seq<u8> = seq![0x38u8];
    let rg: Seq<u8> = seq![0x50u8, 0x50u8, 0x50u8, 0x50u8, 0x50u8, 0x50u8, 0x50u8, 0x50u8];
    let rh: Seq<u8> = seq![0x52u8, 0x4eu8, 0x42u8, 0x51u8, 0x4bu8, 0x42u8, 0x4eu8, 0x52u8];
    let p: Seq<u8> = seq![0x72u8, 0x6eu8, 0x62u8, 0x71u8, 0x6bu8, 0x62u8, 0x6eu8, 0x72u8, 0x2fu8, 0x70u8, 0x70u8, 0x70u8, 0x70u8, 0x70u8, 0x70u8, 0x70u8, 0x70u8, 0x2fu8, 0x38u8, 0x2fu8, 0x38u8, 0x2fu8, 0x38u8, 0x2fu8, 0x38u8, 0x2fu8, 0x50u8, 0x50u8, 0x50u8, 0x50u8, 0x50u8, 0x50u8, 0x50u8, 0x50u8, 0x2fu8, 0x52u8, 0x4eu8, 0x42u8, 0x51u8, 0x4bu8, 0x42u8, 0x4eu8, 0x52u8];
    let f1: Seq<u8> = seq![0x77u8];
    let f2: Seq<u8> = seq![0x4bu8, 0x51u8, 0x6bu8, 0x71u8];
    let f3: Seq<u8> = seq![0x2du8];
    let f4: Seq<u8> = seq![0x30u8];
    let f5: Seq<u8> = seq![0x31u8];
    let b = FEN_START.spec_bytes();
    let u5 = f5;
    let u4 = f4.push(0x20u8) + u5;
    let u3 = f3.push(0x20u8) + u4;
    let u2 = f2.push(0x20u8) + u3;
    let u1 = f1.push(0x20u8) + u2;
    let u0 = p.push(0x20u8) + u1;
    assert(b =~= u0);
    lemma_split_none(p, 0x20u8);
    lemma_split_none(f1, 0x20u8);
    lemma_split_none(f2, 0x20u8);
    lemma_split_none(f3, 0x20u8);
    lemma_split_none(f4, 0x20u8);
    lemma_split_none(f5, 0x20u8);
    lemma_split_join(f4, u5, 0x20u8);
    lemma_split_join(f3, u4, 0x20u8);
    lemma_split_join(f2, u3, 0x20u8);
    lemma_split_join(f1, u2, 0x20u8);
    lemma_split_join(p, u1, 0x20u8);
    assert(split_on(b, 0x20u8) =~= seq![p, f1, f2, f3, f4, f5]);
    let t7 = rh;
    let t6 = rg.push(0x2fu8) + t7;
    let t5 = rf.push(0x2fu8) + t6;
    let t4 = re.push(0x2fu8) + t5;
    let t3 = rd.push(0x2fu8) + t4;
    let t2 = rc.push(0x2fu8) + t3;
    let t1 = rb.push(0x2fu8) + t2;
    let t0 = ra.push(0x2fu8) + t1;
    assert(p =~= t0);
    lemma_split_none(ra, 0x2fu8);
    lemma_split_none(rb, 0x2fu8);
    lemma_split_none(rc, 0x2fu8);
    lemma_split_none(rd, 0x2fu8);
    lemma_split_none(re, 0x2fu8);
    lemma_split_none(rf, 0x2fu8);
    lemma_split_none(rg, 0x2fu8);
    lemma_split_none(rh, 0x2fu8);
    lemma_split_join(rg, t7, 0x2fu8);
    lemma_split_join(rf, t6, 0x2fu8);
    lemma_split_join(re, t5, 0x2fu8);
    lemma_split_join(rd, t4, 0x2fu8);
    lemma_split_join(rc, t3, 0x2fu8);
    lemma_split_join(rb, t2, 0x2fu8);
    lemma_split_join(ra, t1, 0x2fu8);
    let rows = seq![ra, rb, rc, rd, re, rf, rg, rh];
    assert(split_on(p, 0x2fu8) =~= rows);
    assert forall|i: int| 0 <= i < p.len() implies p[i] == 0x2f || is_row_byte(#[trigger] p[i]) by {
    }
    lemma_row_len(ra);
    lemma_row_len(rb);
    lemma_row_len(rc);
    lemma_row_len(rd);
    lemma_row_len(re);
    lemma_row_len(rf);
    lemma_row_len(rg);
    lemma_row_len(rh);
    reveal_with_fuel(rows_cells, 9);
    reveal_with_fuel(row_cells, 2);
    assert(rows_cells(rows).len() == 64);
    reveal_with_fuel(castling_of_field, 5);
    reveal_with_fuel(dec_value, 2);
    assert(castling_of_field(f2) is Some);
    assert(number_of_field(f4, 255) is Some);
    assert(number_of_field(f5, 65535) is Some);
}

/// The board a valid FEN record describes, with its zobrist key.
pub open spec fn fen_board(b: Seq<u8>, r: &Board) -> bool {
    let f = split_on(b, 0x20);
    &&& r.squares@ == placement(f[0])
    &&& r.state.color == color_of_field(f[1])->0
    &&& r.state.castling == castling_of_field(f[2])->0
    &&& r.state.ep == ep_of_field(f[3])->0
    &&& r.state.half_move == number_of_field(f[4], 255)->0
    &&& r.state.full_move == number_of_field(f[5], 65535)->0
    &&& r.state.pk_key == 0
    &&& r.state.phase == 0
    &&& r.pieces_ok()
    &&& r.moves@.len() == 0
    &&& r.history@.len() == 0
    &&& r.gen_moves@.len() == 0
    &&& r.eval.is_cleared()
    &&& (r.state.castling < 16 && (r.state.ep is Some ==> r.state.ep->0 < 64) ==> r.state.key == position_hash(r))
}

/// Ranges of the parts of `b` between the separators `sep`.
pub fn split_ranges(b: &[u8], sep: u8) -> (r: Vec<(usize, usize)>)
    ensures
        r@.len() == split_on(b@, sep).len(),
        forall|k: int| 0 <= k < r@.len() ==> (#[trigger] r@[k]).0 <= r@[k].1 <= b@.len() && b@.subrange(r@[k].0 as int, r@[k].1 as int) == split_on(b@, sep)[k],
{
    let mut r: Vec<(usize, usize)> = Vec::new();
    let mut st: usize = 0;
    let mut i: usize = 0;
    while i < b.len()
        invariant
            i <= b@.len(),
            st <= i,
            r@.len() + 1 == split_on(b@.take(i as int), sep).len(),
            forall|k: int| 0 <= k < r@.len() ==> (#[trigger] r@[k]).0 <= r@[k].1 <= i && b@.subrange(r@[k].0 as int, r@[k].1 as int) == split_on(b@.take(i as int), sep)[k],
            b@.subrange(st as int, i as int) == split_on(b@.take(i as int), sep).last(),
        decreases b@.len() - i,
    {
        let ghost pre = split_on(b@.take(i as int), sep);
        proof {
            assert(b@.take(i + 1).drop_last() =~= b@.take(i as int));
        }
        if b[i] == sep {
            r.push((st, i));
            st = i + 1;
            proof {
                assert(b@.subrange(st as int, i + 1) =~= seq![]);
            }
        } else {
            proof {
                assert(b@.subrange(st as int, i + 1) =~= b@.subrange(st as int, i as int).push(b@[i as int]));
            }
        }
        i = i + 1;
    }
    r.push((st, i));
    proof {
        assert(b@.take(b@.len() as int) =~= b@);
    }
    r
}

/// No part of a split holds the separator.
pub proof fn lemma_split_no_sep(s: Seq<u8>, sep: u8, q: int, j: int)
    requires
        0 <= q < split_on(s, sep).len(),
        0 <= j < split_on(s, sep)[q].len(),
    ensures
        split_on(s, sep)[q][j] != sep,
    decreases s.len(),
{
    if s.len() > 0 {
        lemma_split_len(s.drop_last(), sep);
        let rest = split_on(s.drop_last(), sep);
        if s.last() == sep {
            if q < rest.len() {
                lemma_split_no_sep(s.drop_last(), sep, q, j);
            }
        } else {
            if q < rest.len() - 1 {
                lemma_split_no_sep(s.drop_last(), sep, q, j);
            } else if j < rest.last().len() {
                assert(split_on(s, sep)[q][j] == rest[q][j]);
                lemma_split_no_sep(s.drop_last(), sep, q, j);
            }
        }
    }
}

/// Every byte that is not the separator stands in some part of the split.
pub proof fn lemma_split_index(s: Seq<u8>, sep: u8, i: int) -> (r: (int, int))
    requires
        0 <= i < s.len(),
        s[i] != sep,
    ensures
        0 <= r.0 < split_on(s, sep).len(),
        0 <= r.1 < split_on(s, sep)[r.0].len(),
        split_on(s, sep)[r.0][r.1] == s[i],
    decreases s.len(),
{
    lemma_split_len(s.drop_last(), sep);
    let rest = split_on(s.drop_last(), sep);
    if i == s.len() - 1 {
        (rest.len() - 1, rest.last().len() as int)
    } else {
        let (q, j) = lemma_split_index(s.drop_last(), sep, i);
        (q, j)
    }
}

/// A split has at least one part.
pub proof fn lemma_split_len(s: Seq<u8>, sep: u8)
    ensures
        split_on(s, sep).len() >= 1,
    decreases s.len(),
{
    if s.len() > 0 {
        lemma_split_len(s.drop_last(), sep);
    }
}

/// The bytes of `b` from `lo` to `hi`.
fn sub_vec(b: &[u8], lo: usize, hi: usize) -> (r: Vec<u8>)
    requires
        lo <= hi <= b@.len(),
    ensures
        r@ == b@.subrange(lo as int, hi as int),
{
    let mut r: Vec<u8> = Vec::new();
    let mut i = lo;
    while i < hi
        invariant
            lo <= i <= hi <= b@.len(),
            r@ == b@.subrange(lo as int, i as int),
        decreases hi - i,
    {
        r.push(b[i]);
        proof {
            assert(b@.subrange(lo as int, i + 1) =~= b@.subrange(lo as int, i as int).push(b@[i as int]));
        }
        i = i + 1;
    }
    r
}

/// Appends what stands on the squares of the row `p[lo..hi]`; `false` when the row holds a
/// byte that is neither a digit from 1 to 8 nor a piece letter.
fn append_row(p: &[u8], lo: usize, hi: usize, cells: &mut Vec<Option<Piece>>) -> (ok: bool)
    requires
        lo <= hi <= p@.len(),
    ensures
        ok == (forall|i: int| lo <= i < hi ==> is_row_byte(#[trigger] p@[i])),
        ok ==> final(cells)@ == old(cells)@ + row_cells(p@.subrange(lo as int, hi as int)),
        ok ==> forall|k: int| old(cells)@.len() <= k < final(cells)@.len() && (#[trigger] final(cells)@[k]) is Some ==> valid_piece(final(cells)@[k]->0),
{
    let mut j = lo;
    proof {
        assert(old(cells)@ + row_cells(p@.subrange(lo as int, lo as int)) =~= old(cells)@);
    }
    while j < hi
        invariant
            lo <= j <= hi <= p@.len(),
            forall|i: int| lo <= i < j ==> is_row_byte(#[trigger] p@[i]),
            cells@ == old(cells)@ + row_cells(p@.subrange(lo as int, j as int)),
            forall|k: int| old(cells)@.len() <= k < cells@.len() && (#[trigger] cells@[k]) is Some ==> valid_piece(cells@[k]->0),
        decreases hi - j,
    {
        let c = p[j];
        let ghost pre = cells@;
        proof {
            assert(p@.subrange(lo as int, j + 1).drop_last() =~= p@.subrange(lo as int, j as int));
        }
        if 0x31 <= c && c <= 0x38 {
            let n = c - 0x30;
            let mut k: u8 = 0;
            while k < n
                invariant
                    k <= n <= 8,
                    cells@ == pre + Seq::new(k as nat, |i: int| None::<u8>),
                    forall|q: int| old(cells)@.len() <= q < pre.len() && (#[trigger] pre[q]) is Some ==> valid_piece(pre[q]->0),
                    old(cells)@.len() <= pre.len(),
                decreases n - k,
            {
                cells.push(None);
                proof {
                    assert(pre + Seq::new((k + 1) as nat, |i: int| None::<u8>) =~= (pre + Seq::new(k as nat, |i: int| None::<u8>)).push(None));
                }
                k = k + 1;
            }
            proof {
                assert(cells@ =~= old(cells)@ + row_cells(p@.subrange(lo as int, j + 1)));
            }
        } else {
            let piece = Piece::from_char(c as char);
            if piece == 0 {
                return false;
            }
            cells.push(Some(piece));
            proof {
                assert(cells@ =~= old(cells)@ + row_cells(p@.subrange(lo as int, j + 1)));
            }
        }
        j = j + 1;
    }
    true
}

/// What stands on each square after the position field `p` is read; `None` when the field is
/// not well formed.
pub fn parse_position(p: &[u8]) -> (r: Option<Vec<Option<Piece>>>)
    ensures
        r is Some <==> position_valid(p@),
        r is Some ==> r->0@ == placement(p@),
        r is Some ==> forall|s: int| 0 <= s < 64 && (#[trigger] r->0@[s]) is Some ==> valid_piece(r->0@[s]->0),
{
    let rows = split_ranges(p, 0x2f);
    let ghost srows = split_on(p@, 0x2f);
    if rows.len() > 8 {
        return None;
    }
    let mut cells: Vec<Option<Piece>> = Vec::new();
    let mut k = rows.len();
    proof {
        assert(srows.take(k as int) =~= srows);
        assert(cells@ + rows_cells(srows.take(k as int)) =~= rows_cells(srows));
    }
    while k > 0
        invariant
            k <= rows@.len() <= 8,
            rows@.len() == srows.len(),
            srows == split_on(p@, 0x2f),
            forall|q: int| 0 <= q < rows@.len() ==> (#[trigger] rows@[q]).0 <= rows@[q].1 <= p@.len() && p@.subrange(rows@[q].0 as int, rows@[q].1 as int) == srows[q],
            cells@ + rows_cells(srows.take(k as int)) == rows_cells(srows),
            cells@.len() <= 64,
            forall|q: int| 0 <= q < cells@.len() && (#[trigger] cells@[q]) is Some ==> valid_piece(cells@[q]->0),
            forall|q: int, i: int| k <= q < rows@.len() && 0 <= i < srows[q].len() ==> is_row_byte(#[trigger] srows[q][i]),
        decreases k,
    {
        let (lo, hi) = rows[k - 1];
        let ghost before = cells@;
        let ok = append_row(p, lo, hi, &mut cells);
        if !ok {
            proof {
                let i = choose|i: int| lo <= i < hi && !is_row_byte(#[trigger] p@[i]);
                assert(srows[k - 1][i - lo] == p@[i]);
                assert(p@[i] != 0x2f) by {
                    lemma_split_no_sep(p@, 0x2f, k - 1, i - lo);
                }
            }
            return None;
        }
        proof {
            assert forall|i: int| 0 <= i < srows[k - 1].len() implies is_row_byte(#[trigger] srows[k - 1][i]) by {
                assert(srows[k - 1][i] == p@[lo + i]);
            }
            assert(srows.take(k as int).drop_last() =~= srows.take(k - 1));
            assert(srows.take(k as int).last() == srows[k - 1]);
            assert(cells@ + rows_cells(srows.take(k - 1)) =~= before + rows_cells(srows.take(k as int)));
        }
        k = k - 1;
        if cells.len() > 64 {
            proof {
                assert(srows.take(0) =~= Seq::<Seq<u8>>::empty());
                assert(rows_cells(srows).len() >= cells@.len());
            }
            return None;
        }
    }
    proof {
        assert(srows.take(0) =~= Seq::<Seq<u8>>::empty());
        assert(cells@ =~= rows_cells(srows));
        assert forall|i: int| 0 <= i < p@.len() implies p@[i] == 0x2f || is_row_byte(#[trigger] p@[i]) by {
            if p@[i] != 0x2f {
                let (q, j) = lemma_split_index(p@, 0x2f, i);
                assert(srows[q][j] == p@[i]);
            }
        }
    }
    let pad = 64 - cells.len();
    let mut r: Vec<Option<Piece>> = Vec::new();
    let mut s: usize = 0;
    while s < 64
        invariant
            s <= 64,
            pad + cells@.len() == 64,
            r@.len() == s,
            forall|q: int| 0 <= q < s ==> #[trigger] r@[q] == (Seq::new(pad as nat, |i: int| None::<u8>) + cells@)[q],
            forall|q: int| 0 <= q < cells@.len() && (#[trigger] cells@[q]) is Some ==> valid_piece(cells@[q]->0),
        decreases 64 - s,
    {
        if s < pad {
            r.push(None);
        } else {
            r.push(cells[s - pad]);
        }
        s = s + 1;
    }
    proof {
        assert(r@ =~= placement(p@));
    }
    Some(r)
}

/// The side to move the color field names; `None` when it is neither `w` nor `b`.
pub fn parse_color(f: &[u8]) -> (r: Option<Color>)
    ensures
        r == color_of_field(f@),
{
    if f.len() == 1 && f[0] == 0x77 {
        proof {
            assert(f@ =~= seq![0x77u8]);
        }
        Some(WHITE)
    } else if f.len() == 1 && f[0] == 0x62 {
        proof {
            assert(f@ =~= seq![0x62u8]);
        }
        Some(BLACK)
    } else {
        proof {
            if f@ == seq![0x77u8] {
                assert(f@[0] == 0x77u8);
            }
            if f@ == seq![0x62u8] {
                assert(f@[0] == 0x62u8);
            }
        }
        None
    }
}

/// The rights the castling field names; `None` when it holds a byte other than
/// `K`, `Q`, `k`, `q` and `-`.
pub fn parse_castling(f: &[u8]) -> (r: Option<Castling>)
    ensures
        r == castling_of_field(f@),
{
    let mut acc: Castling = 0;
    let mut ok = true;
    let mut i: usize = 0;
    proof {
        assert(f@.take(0) =~= seq![]);
    }
    while i < f.len()
        invariant
            i <= f@.len(),
            ok == castling_of_field(f@.take(i as int)) is Some,
            ok ==> acc == castling_of_field(f@.take(i as int))->0,
        decreases f@.len() - i,
    {
        proof {
            assert(f@.take(i + 1).drop_last() =~= f@.take(i as int));
        }
        let c = f[i];
        let x: Option<Castling> = if c == 0x4b {
            Some(CASTLING_WKINGSIDE)
        } else if c == 0x51 {
            Some(CASTLING_WQUEENSIDE)
        } else if c == 0x6b {
            Some(CASTLING_BKINGSIDE)
        } else if c == 0x71 {
            Some(CASTLING_BQUEENSIDE)
        } else if c == 0x2d {
            Some(0u8)
        } else {
            None
        };
        match x {
            Some(right) => {
                if ok {
                    acc.add(right);
                }
            },
            None => {
                ok = false;
            },
        }
        i = i + 1;
    }
    proof {
        assert(f@.take(f@.len() as int) =~= f@);
    }
    if ok {
        Some(acc)
    } else {
        None
    }
}

/// The en passant square the field names: `Some(None)` for `-`; `None` when the field is
/// neither `-` nor a square.
pub fn parse_ep(f: &[u8]) -> (r: Option<Option<u8>>)
    ensures
        r == ep_of_field(f@),
{
    if f.len() == 1 && f[0] == 0x2d {
        proof {
            assert(f@ =~= seq![0x2du8]);
        }
        Some(None)
    } else if f.len() == 2 && 0x61 <= f[0] && f[0] <= 0x68 && 0x31 <= f[1] && f[1] <= 0x38 {
        proof {
            if f@ == seq![0x2du8] {
                assert(f@.len() == 1);
            }
        }
        Some(Some((f[1] - 0x31) * 8 + (f[0] - 0x61)))
    } else {
        proof {
            if f@ == seq![0x2du8] {
                assert(f@[0] == 0x2du8);
            }
        }
        None
    }
}

/// The number the field holds, read as Rust reads an unsigned number of at most `max`;
/// `None` when it is not such a number.
pub fn parse_number(f: &[u8], max: u64) -> (r: Option<u64>)
    requires
        max <= 65535,
    ensures
        match number_of_field(f@, max as nat) {
            Some(n) => r == Some(n as u64),
            None => r is None,
        },
{
    let start: usize = if f.len() > 0 && f[0] == 0x2b {
        1
    } else {
        0
    };
    let ghost d = number_digits(f@);
    proof {
        assert(d =~= f@.subrange(start as int, f@.len() as int));
    }
    if start == f.len() {
        return None;
    }
    let mut value: u64 = 0;
    let mut over = false;
    let mut j = start;
    proof {
        assert(d.take(0) =~= seq![]);
    }
    while j < f.len()
        invariant
            start <= j <= f@.len(),
            d == f@.subrange(start as int, f@.len() as int),
            d == number_digits(f@),
            max <= 65535,
            all_digits(d.take(j - start)),
            !over ==> value == dec_value(d.take(j - start)) && value <= max,
            over ==> dec_value(d.take(j - start)) > max,
        decreases f@.len() - j,
    {
        let c = f[j];
        proof {
            assert(d.take(j - start + 1).drop_last() =~= d.take(j - start));
            assert(d[j - start] == c);
        }
        if c < 0x30 || c > 0x39 {
            proof {
                assert(!all_digits(d)) by {
                    assert(d[j - start] == c);
                    assert(!(0x30 <= d[j - start] <= 0x39));
                }
                assert(number_of_field(f@, max as nat) is None);
            }
            return None;
        }
        if !over {
            let v = value * 10 + (c - 0x30) as u64;
            if v > max {
                over = true;
            } else {
                value = v;
            }
        }
        proof {
            assert forall|i: int| 0 <= i < j - start + 1 implies 0x30 <= #[trigger] d.take(j - start + 1)[i] <= 0x39 by {
                if i < j - start {
                    assert(d.take(j - start + 1)[i] == d.take(j - start)[i]);
                }
            }
        }
        j = j + 1;
    }
    proof {
        assert(d.take(d.len() as int) =~= d);
    }
    if over {
        None
    } else {
        Some(value)
    }
}

/// The board the FEN record `fen` describes; `None` when it is not a valid record.
pub fn try_read_fen(fen: &str) -> (r: Option<Board>)
    ensures
        r is Some <==> fen_valid(fen.spec_bytes()),
        r is Some ==> fen_board(fen.spec_bytes(), &r->0),
{
    let b = fen.as_bytes();
    let fields = split_ranges(b, 0x20);
    if fields.len() != 6 {
        return None;
    }
    let f0 = sub_vec(b, fields[0].0, fields[0].1);
    let f1 = sub_vec(b, fields[1].0, fields[1].1);
    let f2 = sub_vec(b, fields[2].0, fields[2].1);
    let f3 = sub_vec(b, fields[3].0, fields[3].1);
    let f4 = sub_vec(b, fields[4].0, fields[4].1);
    let f5 = sub_vec(b, fields[5].0, fields[5].1);
    let cells = match parse_position(f0.as_slice()) {
        Some(c) => c,
        None => {
            return None;
        },
    };
    let color = match parse_color(f1.as_slice()) {
        Some(c) => c,
        None => {
            return None;
        },
    };
    let castling = match parse_castling(f2.as_slice()) {
        Some(c) => c,
        None => {
            return None;
        },
    };
    let ep = match parse_ep(f3.as_slice()) {
        Some(e) => e,
        None => {
            return None;
        },
    };
    let half_move = match parse_number(f4.as_slice(), 255) {
        Some(n) => n,
        None => {
            return None;
        },
    };
    let full_move = match parse_number(f5.as_slice(), 65535) {
        Some(n) => n,
        None => {
            return None;
        },
    };
    let mut board = Board::create();
    proof {
        crate::zobrist::lemma_hash_empty(board.squares@, 64);
    }
    let mut s: usize = 0;
    while s < 64
        invariant
            s <= 64,
            cells@.len() == 64,
            forall|q: int| 0 <= q < 64 && (#[trigger] cells@[q]) is Some ==> valid_piece(cells@[q]->0),
            forall|q: int| 0 <= q < s ==> #[trigger] board.squares@[q] == cells@[q],
            forall|q: int| s <= q < 64 ==> #[trigger] board.squares@[q] is None,
            board.pieces_ok(),
            board.state == (BoardState { key: board.state.key, ..empty_state() }),
            board.state.key == squares_hash(board.squares@, 64),
            board.moves@.len() == 0,
            board.history@.len() == 0,
            board.gen_moves@.len() == 0,
            board.eval.is_cleared(),
        decreases 64 - s,
    {
        match cells[s] {
            Some(p) => {
                board.add_piece(s, p);
            },
            None => {},
        }
        s = s + 1;
    }
    proof {
        assert(board.squares@ =~= cells@);
    }
    board.state.color = color;
    board.state.castling = castling;
    board.state.ep = ep;
    board.state.half_move = half_move as u8;
    board.state.full_move = full_move as u16;
    let ghost placed = board;
    board.zb_reset_key();
    proof {
        if board.state.castling < 16 && (board.state.ep is Some ==> board.state.ep->0 < 64) {
            lemma_xor(squares_hash(placed.squares@, 64), color_key(placed.state.color), castle_key(placed.state.castling as int));
        }
    }
    Some(board)
}

pub trait FenTrait: Sized {
    /// Every square that the position field puts a piece on is empty.
    spec fn room_for(&self, p: Seq<u8>) -> bool;

    fn read_fen(fen: &str) -> Self
        requires
            fen_valid(fen.spec_bytes()),
    ;

    fn set_position(&mut self, position: &str)
        requires
            position_valid(position.spec_bytes()),
            old(self).room_for(position.spec_bytes()),
    ;

    fn set_en_passant(&mut self, square: &str)
        requires
            ep_of_field(square.spec_bytes()) is Some,
    ;

    fn set_color(&mut self, color: &str)
        requires
            color_of_field(color.spec_bytes()) is Some,
    ;

    fn set_castling(&mut self, castling: &str)
        requires
            castling_of_field(castling.spec_bytes()) is Some,
    ;

    fn set_half_move_clock(&mut self, half_move: &str)
        requires
            number_of_field(half_move.spec_bytes(), 255) is Some,
    ;

    fn set_full_move_number(&mut self, full_move: &str)
        requires
            number_of_field(full_move.spec_bytes(), 65535) is Some,
    ;
}

/// Everything but the state is as in `old`.
pub open spec fn only_state_changed(new: &Board, old: &Board) -> bool {
    &&& new.squares == old.squares
    &&& new.bitboard == old.bitboard
    &&& new.moves@ == old.moves@
    &&& new.history@ == old.history@
    &&& new.same_tables(old)
}

impl FenTrait for Board {
    open spec fn room_for(&self, p: Seq<u8>) -> bool {
        forall|s: int| 0 <= s < 64 && (#[trigger] placement(p)[s]) is Some ==> self.squares[s] is None
    }

    /// The board the FEN record `fen` describes, with its zobrist key.
    fn read_fen(fen: &str) -> (r: Board)
        ensures
            fen_board(fen.spec_bytes(), &r),
    {
        match try_read_fen(fen) {
            Some(b) => b,
            None => {
                proof {
                    assert(false);
                }
                Board::create()
            },
        }
    }

    /// Puts the pieces of the position field on the board.
    fn set_position(&mut self, position: &str)
        ensures
            forall|s: int| 0 <= s < 64 ==> #[trigger] final(self).squares@[s] == if placement(position.spec_bytes())[s] is Some {
                placement(position.spec_bytes())[s]
            } else {
                old(self).squares@[s]
            },
            final(self).moves@ == old(self).moves@,
            final(self).history@ == old(self).history@,
            final(self).same_tables(old(self)),
            final(self).state == (BoardState { key: final(self).state.key, ..old(self).state }),
            old(self).pieces_ok() ==> final(self).pieces_ok(),
            old(self).state.key == squares_hash(old(self).squares@, 64) ==> final(self).state.key == squares_hash(final(self).squares@, 64),
    {
        let cells = match parse_position(position.as_bytes()) {
            Some(c) => c,
            None => {
                proof {
                    assert(false);
                }
                return;
            },
        };
        let ghost b0 = *self;
        let mut s: usize = 0;
        while s < 64
            invariant
                s <= 64,
                cells@ == placement(position.spec_bytes()),
                forall|q: int| 0 <= q < 64 && (#[trigger] cells@[q]) is Some ==> valid_piece(cells@[q]->0),
                forall|q: int| 0 <= q < 64 && (#[trigger] cells@[q]) is Some ==> b0.squares@[q] is None,
                forall|q: int| 0 <= q < s ==> #[trigger] self.squares@[q] == if cells@[q] is Some {
                    cells@[q]
                } else {
                    b0.squares@[q]
                },
                forall|q: int| s <= q < 64 ==> #[trigger] self.squares@[q] == b0.squares@[q],
                self.moves@ == b0.moves@,
                self.history@ == b0.history@,
                self.same_tables(&b0),
                self.state == (BoardState { key: self.state.key, ..b0.state }),
                b0.pieces_ok() ==> self.pieces_ok(),
                b0.state.key == squares_hash(b0.squares@, 64) ==> self.state.key == squares_hash(self.squares@, 64),
            decreases 64 - s,
        {
            match cells[s] {
                Some(p) => {
                    self.add_piece(s, p);
                },
                None => {},
            }
            s = s + 1;
        }
    }

    /// Sets the en passant square the field names.
    fn set_en_passant(&mut self, square: &str)
        ensures
            final(self).state == (BoardState { ep: ep_of_field(square.spec_bytes())->0, ..old(self).state }),
            only_state_changed(final(self), old(self)),
    {
        match parse_ep(square.as_bytes()) {
            Some(e) => {
                self.state.ep = e;
            },
            None => {},
        }
    }

    /// Sets the side to move the field names.
    fn set_color(&mut self, color: &str)
        ensures
            final(self).state == (BoardState { color: color_of_field(color.spec_bytes())->0, ..old(self).state }),
            only_state_changed(final(self), old(self)),
    {
        match parse_color(color.as_bytes()) {
            Some(c) => {
                self.state.color = c;
            },
            None => {},
        }
    }

    /// Adds the castling rights the field names.
    fn set_castling(&mut self, castling: &str)
        ensures
            final(self).state == (BoardState { castling: (old(self).state.castling | castling_of_field(castling.spec_bytes())->0) as u8, ..old(self).state }),
            only_state_changed(final(self), old(self)),
    {
        match parse_castling(castling.as_bytes()) {
            Some(c) => {
                self.state.castling.add(c);
            },
            None => {},
        }
    }

    /// Sets the half move clock the field holds.
    fn set_half_move_clock(&mut self, half_move: &str)
        ensures
            final(self).state == (BoardState { half_move: number_of_field(half_move.spec_bytes(), 255)->0 as u8, ..old(self).state }),
            only_state_changed(final(self), old(self)),
    {
        match parse_number(half_move.as_bytes(), 255) {
            Some(n) => {
                self.state.half_move = n as u8;
            },
            None => {},
        }
    }

    /// Sets the full move number the field holds.
    fn set_full_move_number(&mut self, full_move: &str)
        ensures
            final(self).state == (BoardState { full_move: number_of_field(full_move.spec_bytes(), 65535)->0 as u16, ..old(self).state }),
            only_state_changed(final(self), old(self)),
    {
        match parse_number(full_move.as_bytes(), 65535) {
            Some(n) => {
                self.state.full_move = n as u16;
            },
            None => {},
        }
    }
}

} // verus!
