use vstd::prelude::*;
use crate::attacks::{lemma_bishop_sym, lemma_rook_sym, lemma_step_sym, queen_target};
use crate::bits::{has_bit, lemma_bit_consts, lemma_bit_ops};
use crate::board::Board;
use crate::make_move::{made, can_make_spec, same_position, undone, can_undo_spec, king_attacked, is_lowest, moved_squares, ep_victim, lemma_undo_after_make, BoardMoveTrait};
use crate::moves::{Move, Flag};
use crate::mv_gen::{gen_ok, legal_move, lemma_made_unique, gen_ready_spec, attacker_of, sq_attacked, occupied, piece_reaches, MAX_GEN, BoardGenMoveTrait};
use crate::piece::{piece_color, piece_kind, opp_color, valid_piece, PAWN, KNIGHT, KING, BISHOP, ROOK, QUEEN, WHITE, BLACK};
use crate::castling::{rook_squares, castle_data, cr_has, castle_right, castle_rook_home, castle_king_home, castle_color};
use crate::fen::{try_read_fen, fen_valid, fen_board};
use crate::zobrist::position_hash;
use vstd::string::StringSliceAdditionalSpecFns;

verus! {

broadcast use vstd::std_specs::bits::axiom_u64_trailing_zeros;

/// Counters of a move path enumeration: the nodes visited, and the leaves by kind of the
/// move that reaches them.
pub struct Stats {
    pub all_nodes: u64,
    pub nodes: u64,
    pub captures: u64,
    pub ep: u64,
    pub castles: u64,
    pub promotions: u64,
    pub checks: u64,
    pub checkmates: u64,
}

/// `x`, or the largest `u64` when `x` exceeds it: what a counter that stops at its largest
/// value shows after counting up to `x`.
pub open spec fn capped(x: int) -> int {
    if x > u64::MAX {
        u64::MAX as int
    } else {
        x
    }
}

/// Counting in two steps with a counter that stops at its largest value.
pub proof fn lemma_capped(a: int, b: int)
    requires
        a >= 0,
        b >= 0,
    ensures
        capped(capped(a) + b) == capped(a + b),
        capped(a + capped(b)) == capped(a + b),
{
}

/// The counters of `new` are those of `old`, each increased by the amount given, up to the
/// largest `u64`.
pub open spec fn counted(old: &Stats, new: &Stats, all: int, nodes: int, captures: int, ep: int, castles: int, promotions: int) -> bool {
    &&& new.all_nodes == capped(old.all_nodes + all)
    &&& new.nodes == capped(old.nodes + nodes)
    &&& new.captures == capped(old.captures + captures)
    &&& new.ep == capped(old.ep + ep)
    &&& new.castles == capped(old.castles + castles)
    &&& new.promotions == capped(old.promotions + promotions)
    &&& new.checks == old.checks
    &&& new.checkmates == old.checkmates
}

impl Stats {
    /// All counters at zero.
    pub fn init() -> (r: Stats)
        ensures
            r.all_nodes == 0 && r.nodes == 0 && r.captures == 0 && r.ep == 0,
            r.castles == 0 && r.promotions == 0 && r.checks == 0 && r.checkmates == 0,
    {
        Stats { all_nodes: 0, nodes: 0, captures: 0, ep: 0, castles: 0, promotions: 0, checks: 0, checkmates: 0 }
    }

    /// Counts a visited node.
    pub fn add_all_node(&mut self)
        ensures
            counted(old(self), final(self), 1, 0, 0, 0, 0, 0),
    {
        self.all_nodes = self.all_nodes.saturating_add(1);
    }

    /// Counts a leaf reached by a quiet move.
    pub fn add_node(&mut self)
        ensures
            counted(old(self), final(self), 0, 1, 0, 0, 0, 0),
    {
        self.nodes = self.nodes.saturating_add(1);
    }

    /// Counts a leaf reached by a capture.
    pub fn add_capture(&mut self)
        ensures
            counted(old(self), final(self), 0, 1, 1, 0, 0, 0),
    {
        self.nodes = self.nodes.saturating_add(1);
        self.captures = self.captures.saturating_add(1);
    }

    /// Counts a leaf reached by an en passant capture.
    pub fn add_ep(&mut self)
        ensures
            counted(old(self), final(self), 0, 1, 1, 1, 0, 0),
    {
        self.nodes = self.nodes.saturating_add(1);
        self.captures = self.captures.saturating_add(1);
        self.ep = self.ep.saturating_add(1);
    }

    /// Counts a leaf reached by a castling.
    pub fn add_castle(&mut self)
        ensures
            counted(old(self), final(self), 0, 1, 0, 0, 1, 0),
    {
        self.nodes = self.nodes.saturating_add(1);
        self.castles = self.castles.saturating_add(1);
    }

    /// Counts a leaf reached by a promotion.
    pub fn add_promotion(&mut self)
        ensures
            counted(old(self), final(self), 0, 1, 0, 0, 0, 1),
    {
        self.nodes = self.nodes.saturating_add(1);
        self.promotions = self.promotions.saturating_add(1);
    }
}

/// A position reached by legal play: consistent, with a king of each side, and the side
/// that just moved not in check.
pub open spec fn legal_position(b: &Board) -> bool {
    &&& b.wf()
    &&& b.has_king(WHITE as int)
    &&& b.has_king(BLACK as int)
    &&& !king_attacked(b, opp_color(b.state.color))
}

/// The piece that captures on `to` attacks `to`.
proof fn lemma_capture_attacks(b: &Board, mv: Move)
    requires
        b.wf(),
        gen_ok(b, mv),
        mv.flag is Capture || (mv.flag is Promotion && mv.flag->Promotion_1 is Some),
    ensures
        attacker_of(b.bitboard, mv.to as int, opp_color(b.state.color), mv.from as u64),
{
    let c = b.state.color;
    let o = opp_color(c);
    let from = mv.from as int;
    let to = mv.to as int;
    let p = mv.piece;
    assert(b.squares[from] == Some(p));
    assert(has_bit(b.bitboard[p as int], from as u64));
    assert(has_bit(b.bitboard[c as int], from as u64));
    lemma_step_sym(from, to, c);
    lemma_bit_ops(b.bitboard[c as int], b.bitboard[1 - c]);
    lemma_bit_ops(b.bitboard[1 - c], b.bitboard[c as int]);
    assert(occupied(b) == b.bitboard[o as int] | b.bitboard[1 - o]) by {
        crate::bits::lemma_bits_ext(occupied(b), b.bitboard[o as int] | b.bitboard[1 - o]);
    }
    if piece_kind(p) == PAWN {
        assert(has_bit(b.bitboard[PAWN + c], from as u64));
    } else if piece_kind(p) == BISHOP {
        lemma_bishop_sym(from, occupied(b), to);
    } else if piece_kind(p) == ROOK {
        lemma_rook_sym(from, occupied(b), to);
    } else if piece_kind(p) == QUEEN {
        if crate::attacks::bishop_target(from, occupied(b), to) {
            lemma_bishop_sym(from, occupied(b), to);
        } else {
            lemma_rook_sym(from, occupied(b), to);
        }
    }
}

/// A move the generator produces in a legal position does not take the last king of the
/// side that is to move next.
proof fn lemma_opp_king_survives(b0: &Board, mv: Move, b1: &Board)
    requires
        legal_position(b0),
        gen_ok(b0, mv),
        made(b0, mv, b1),
    ensures
        b1.has_king(opp_color(b0.state.color) as int),
{
    reveal(made);
    let c = b0.state.color;
    let o = opp_color(c);
    let kb = b0.bitboard[KING + o];
    let k = vstd::std_specs::bits::u64_trailing_zeros(kb) as u64;
    assert(is_lowest(kb, k));
    assert(!sq_attacked(b0.bitboard, k as int, o));
    assert(b0.squares[k as int] == Some((KING + o) as u8));
    let to = mv.to as int;
    if (mv.flag is Capture || (mv.flag is Promotion && mv.flag->Promotion_1 is Some)) && to == k {
        lemma_capture_attacks(b0, mv);
        assert(attacker_of(b0.bitboard, k as int, o, mv.from as u64));
        assert(false);
    }
    assert(b1.squares[k as int] == Some((KING + o) as u8));
    assert(has_bit(b1.bitboard[KING + o], k));
    lemma_bit_consts();
}

/// The moves of `b` that the generator produces and that leave the mover's king safe.
pub open spec fn legal_moves(b: &Board) -> Set<Move> {
    Set::new(legal_in(*b))
}

/// The test of a legal move of `b`.
pub open spec fn legal_in(b: Board) -> spec_fn(Move) -> bool {
    |m: Move| legal_move(&b, m)
}

/// Keeping some items of a sequence without repetitions gives a sequence without repetitions.
proof fn lemma_filter_no_dup(s: Seq<Move>, p: spec_fn(Move) -> bool)
    requires
        s.no_duplicates(),
    ensures
        s.filter(p).no_duplicates(),
    decreases s.len(),
{
    reveal(Seq::filter);
    if s.len() > 0 {
        let rest = s.drop_last();
        assert(rest.no_duplicates());
        lemma_filter_no_dup(rest, p);
        if p(s.last()) {
            if rest.filter(p).contains(s.last()) {
                rest.lemma_filter_contains_rev(p, s.last());
                let j = choose|j: int| 0 <= j < rest.len() && rest[j] == s.last();
                assert(s[j] == s[s.len() - 1]);
            }
        }
    }
}

/// Counting the legal moves among the generated ones counts all legal moves.
proof fn lemma_legal_count(b: &Board, moves: Seq<Move>)
    requires
        moves.no_duplicates(),
        forall|j: int| 0 <= j < moves.len() ==> gen_ok(b, #[trigger] moves[j]),
        forall|m: Move| #[trigger] gen_ok(b, m) ==> moves.contains(m),
    ensures
        moves.filter(legal_in(*b)).len() == legal_moves(b).len(),
        moves.filter(legal_in(*b)).to_set() == legal_moves(b),
        moves.filter(legal_in(*b)).no_duplicates(),
{
    broadcast use vstd::seq_lib::group_filter_ensures;

    let p = legal_in(*b);
    let f = moves.filter(p);
    lemma_filter_no_dup(moves, p);
    f.unique_seq_to_set();
    assert forall|m: Move| f.to_set().contains(m) <==> #[trigger] legal_moves(b).contains(m) by {
        if f.contains(m) {
            let j = choose|j: int| 0 <= j < f.len() && f[j] == m;
            assert(p(f[j]));
        }
        if legal_move(b, m) {
            assert(moves.contains(m));
            let j = choose|j: int| 0 <= j < moves.len() && moves[j] == m;
            moves.lemma_filter_contains(p, j);
        }
    }
    assert(f.to_set() =~= legal_moves(b));
}

/// Whether a generated move was made tells whether it is legal.
proof fn lemma_made_is_legal(b0: &Board, bm: &Board, mv: Move, legal: bool, b1: &Board)
    requires
        same_position(bm, b0),
        gen_ok(b0, mv),
        legal ==> made(bm, mv, b1) && !king_attacked(b1, bm.state.color),
        !legal ==> exists|b2: Board| made(bm, mv, &b2) && king_attacked(&b2, bm.state.color),
    ensures
        legal == legal_move(b0, mv),
{
    if legal {
        assert(made(b0, mv, b1)) by {
            reveal(made);
            assert(b0.squares@ == bm.squares@);
        }
    } else {
        let b2 = choose|b2: Board| made(bm, mv, &b2) && king_attacked(&b2, bm.state.color);
        assert(made(b0, mv, &b2)) by {
            reveal(made);
            assert(b0.squares@ == bm.squares@);
        }
        assert forall|b3: Board| made(b0, mv, &b3) implies king_attacked(&b3, b0.state.color) by {
            lemma_made_unique(b0, mv, &b2, &b3);
        }
    }
}

/// Two sets of castling rights that hold the same four rights and the same bits above them
/// are equal.
proof fn lemma_rights_eq(a: u8, b: u8)
    by (bit_vector)
    requires
        a >> 4u8 == b >> 4u8,
        (a & 1u8 != 0) == (b & 1u8 != 0),
        (a & 2u8 != 0) == (b & 2u8 != 0),
        (a & 4u8 != 0) == (b & 4u8 != 0),
        (a & 8u8 != 0) == (b & 8u8 != 0),
    ensures
        a == b,
{
}

/// Boards in the same position allow the same moves and lead to the same boards.
proof fn lemma_same_moves(b1: &Board, b2: &Board, mv: Move)
    requires
        same_position(b1, b2),
    ensures
        legal_move(b1, mv) == legal_move(b2, mv),
        forall|x: Board| #[trigger] made(b1, mv, &x) == made(b2, mv, &x),
{
    reveal(made);
    assert(b1.squares@ == b2.squares@);
    crate::mv_gen::lemma_gen_frame(b1, b2, mv);
    assert forall|x: Board| #[trigger] made(b1, mv, &x) == made(b2, mv, &x) by {
        assert(position_hash(b1) == position_hash(b2));
    }
    if legal_move(b1, mv) {
        let x = choose|x: Board| made(b1, mv, &x) && !king_attacked(&x, b1.state.color);
        assert(made(b2, mv, &x));
    }
    if legal_move(b2, mv) {
        let x = choose|x: Board| made(b2, mv, &x) && !king_attacked(&x, b2.state.color);
        assert(made(b1, mv, &x));
    }
}

/// A move made on a board whose key is its hash leads to one position.
proof fn lemma_made_same(b: &Board, mv: Move, x1: &Board, x2: &Board)
    requires
        made(b, mv, x1),
        made(b, mv, x2),
        b.state.key == position_hash(b),
    ensures
        same_position(x1, x2),
        x1.state.key == position_hash(x1),
{
    reveal(made);
    assert(x1.squares@ == x2.squares@);
    assert(x1.squares =~= x2.squares);
    crate::make_move::lemma_bitboards_from_squares(x1, x2);
    let r1 = x1.state.castling;
    let r2 = x2.state.castling;
    assert(cr_has(r1, castle_right(0)) == cr_has(r2, castle_right(0)));
    assert(cr_has(r1, castle_right(1)) == cr_has(r2, castle_right(1)));
    assert(cr_has(r1, castle_right(2)) == cr_has(r2, castle_right(2)));
    assert(cr_has(r1, castle_right(3)) == cr_has(r2, castle_right(3)));
    lemma_rights_eq(r1, r2);
    assert(x1.state == x2.state);
    assert(x1.history@ == x2.history@);
    assert(x1.moves@ == x2.moves@);
}

/// A board reached by playing `mv` on `b`.
pub open spec fn child(b: Board, mv: Move) -> Board {
    choose|x: Board| made(&b, mv, &x)
}

/// What an enumeration of move sequences counts: its leaves, the nodes it visits, or the
/// leaves reached by a move of one kind.
#[derive(PartialEq, Eq, Clone, Copy, Debug, Structural)]
pub enum Tally {
    Leaves,
    Nodes,
    Captures,
    EnPassant,
    Castles,
    Promotions,
}

/// 1 when the move `mv` that reaches a leaf is of the kind `k` counts (en passant captures
/// count as captures), else 0.
pub open spec fn leaf_counted(k: Tally, mv: Move) -> nat {
    let hit = match k {
        Tally::Captures => mv.flag is Capture || mv.flag is EP,
        Tally::EnPassant => mv.flag is EP,
        Tally::Castles => mv.flag is KingCastle || mv.flag is QueenCastle,
        Tally::Promotions => mv.flag is Promotion,
        _ => false,
    };
    if hit {
        1
    } else {
        0
    }
}

/// What the enumeration of the sequences of `depth` legal moves from `b` counts of `k`:
/// the sequences themselves, the nodes of the tree of their prefixes (the root included), or
/// the sequences whose last move is of the kind `k`.
pub open spec fn perft_tally(b: Board, depth: nat, k: Tally) -> nat
    decreases depth, 1nat, 0nat,
{
    if depth == 0 {
        if k == Tally::Leaves || k == Tally::Nodes {
            1
        } else {
            0
        }
    } else {
        (if k == Tally::Nodes {
            1nat
        } else {
            0nat
        }) + tally_sum(b, legal_moves(&b), depth, k)
    }
}

/// What the sequences of `depth` legal moves from `b` that start with the move `m` add to
/// the tally `k`.
pub open spec fn tally_step(b: Board, m: Move, depth: nat, k: Tally) -> nat
    decreases depth, 0nat, 0nat,
{
    if depth == 0 {
        0
    } else {
        (if depth == 1 {
            leaf_counted(k, m)
        } else {
            0nat
        }) + perft_tally(child(b, m), (depth - 1) as nat, k)
    }
}

/// The tally `k` of the sequences of `depth` legal moves from `b` that start with a move of `s`.
pub open spec fn tally_sum(b: Board, s: Set<Move>, depth: nat, k: Tally) -> nat
    decreases depth, 0nat, s.len() + 1,
{
    if depth == 0 || !s.finite() || s.len() == 0 {
        0
    } else {
        let m = s.choose();
        proof {
            vstd::set::axiom_set_remove_len(s, m);
            vstd::set_lib::lemma_set_empty_equivalency_len(s);
        }
        tally_step(b, m, depth, k) + tally_sum(b, s.remove(m), depth, k)
    }
}

/// The number of sequences of `depth` legal moves that can be played from `b`.
pub open spec fn perft_count(b: Board, depth: nat) -> nat {
    perft_tally(b, depth, Tally::Leaves)
}

/// A legal move has a board it leads to.
proof fn lemma_child_made(b: Board, mv: Move)
    requires
        legal_move(&b, mv),
    ensures
        made(&b, mv, &child(b, mv)),
{
    let x = choose|x: Board| made(&b, mv, &x) && !king_attacked(&x, b.state.color);
    assert(made(&b, mv, &x));
}

/// Boards in the same position, keyed by their hash, have the same tallies.
proof fn lemma_count_same(b1: Board, b2: Board, d: nat, k: Tally)
    requires
        same_position(&b1, &b2),
        b1.state.key == position_hash(&b1),
    ensures
        perft_tally(b1, d, k) == perft_tally(b2, d, k),
    decreases d, 1nat, 0nat,
{
    if d > 0 {
        assert forall|m: Move| #[trigger] legal_moves(&b1).contains(m) == legal_moves(&b2).contains(m) by {
            lemma_same_moves(&b1, &b2, m);
        }
        assert(legal_moves(&b1) =~= legal_moves(&b2));
        lemma_sum_same(b1, b2, legal_moves(&b1), d, k);
    }
}

/// Boards in the same position, keyed by their hash, have the same tallies of the sequences
/// starting with the legal moves of `s`.
#[verifier::spinoff_prover]
proof fn lemma_sum_same(b1: Board, b2: Board, s: Set<Move>, d: nat, k: Tally)
    requires
        same_position(&b1, &b2),
        b1.state.key == position_hash(&b1),
        forall|m: Move| #[trigger] s.contains(m) ==> legal_move(&b1, m),
    ensures
        tally_sum(b1, s, d, k) == tally_sum(b2, s, d, k),
    decreases d, 0nat, s.len() + 1,
{
    if d > 0 && s.finite() && s.len() > 0 {
        let m = s.choose();
        vstd::set::axiom_set_choose_len(s);
        vstd::set::axiom_set_remove_len(s, m);
        lemma_same_moves(&b1, &b2, m);
        lemma_child_made(b1, m);
        lemma_child_made(b2, m);
        lemma_made_same(&b1, m, &child(b1, m), &child(b2, m));
        lemma_count_same(child(b1, m), child(b2, m), (d - 1) as nat, k);
        assert(tally_step(b1, m, d, k) == tally_step(b2, m, d, k));
        lemma_sum_same(b1, b2, s.remove(m), d, k);
        assert(tally_sum(b1, s, d, k) == tally_step(b1, m, d, k) + tally_sum(b1, s.remove(m), d, k));
        assert(tally_sum(b2, s, d, k) == tally_step(b2, m, d, k) + tally_sum(b2, s.remove(m), d, k));
    }
}

/// Any move of `s` may be counted first.
proof fn lemma_sum_remove(b: Board, s: Set<Move>, d: nat, x: Move, k: Tally)
    requires
        s.finite(),
        s.contains(x),
        d > 0,
    ensures
        tally_sum(b, s, d, k) == tally_step(b, x, d, k) + tally_sum(b, s.remove(x), d, k),
    decreases s.len(),
{
    vstd::set::axiom_set_remove_len(s, x);
    let c = s.choose();
    vstd::set::axiom_set_choose_len(s);
    if c != x {
        vstd::set::axiom_set_remove_len(s, c);
        vstd::set::axiom_set_remove_finite(s, c);
        vstd::set::axiom_set_remove_finite(s, x);
        lemma_sum_remove(b, s.remove(c), d, x, k);
        lemma_sum_remove(b, s.remove(x), d, c, k);
        assert(s.remove(c).remove(x) =~= s.remove(x).remove(c));
    }
}

/// The tally `k` of the sequences of `depth` moves from `b` that start with a legal move of `q`.
pub open spec fn seq_tally(b: Board, q: Seq<Move>, depth: nat, k: Tally) -> nat
    decreases q.len(),
{
    if q.len() == 0 {
        0
    } else {
        seq_tally(b, q.drop_last(), depth, k) + tally_step(b, q.last(), depth, k)
    }
}

/// Counting along a sequence without repetitions counts along its set.
proof fn lemma_seq_count_set(b: Board, q: Seq<Move>, d: nat, k: Tally)
    requires
        q.no_duplicates(),
        d > 0,
    ensures
        seq_tally(b, q, d, k) == tally_sum(b, q.to_set(), d, k),
    decreases q.len(),
{
    broadcast use vstd::set::group_set_axioms, vstd::seq_lib::seq_to_set_is_finite;

    if q.len() == 0 {
        assert(q.to_set() =~= Set::empty());
    } else {
        let r = q.drop_last();
        let l = q.last();
        assert(r.no_duplicates());
        lemma_seq_count_set(b, r, d, k);
        assert(q.to_set().contains(l));
        lemma_sum_remove(b, q.to_set(), d, l, k);
        assert forall|m: Move| #[trigger] q.to_set().remove(l).contains(m) == r.to_set().contains(m) by {
            if r.contains(m) {
                let j = choose|j: int| 0 <= j < r.len() && r[j] == m;
                assert(q[j] == m);
                assert(q[q.len() - 1] == l);
            }
            if q.contains(m) && m != l {
                let j = choose|j: int| 0 <= j < q.len() && q[j] == m;
                assert(r[j] == m);
            }
        }
        assert(q.to_set().remove(l) =~= r.to_set());
    }
}

/// The counters of `new` grew from those of `old` by what the enumeration of the sequences
/// of `depth` legal moves from `b` counts, each up to the largest `u64`: the nodes it visits
/// and its leaves by the kind of their last move.
pub open spec fn tallied(old: &Stats, new: &Stats, b: Board, depth: nat) -> bool {
    &&& new.all_nodes == capped(old.all_nodes + perft_tally(b, depth, Tally::Nodes))
    &&& new.captures == capped(old.captures + perft_tally(b, depth, Tally::Captures))
    &&& new.ep == capped(old.ep + perft_tally(b, depth, Tally::EnPassant))
    &&& new.castles == capped(old.castles + perft_tally(b, depth, Tally::Castles))
    &&& new.promotions == capped(old.promotions + perft_tally(b, depth, Tally::Promotions))
}

/// The leaf counter of `new` grew from that of `old` by the leaves `leaves` counted (none at
/// depth 0), up to the largest `u64`; the other counters did not go down and the checks were
/// not counted.
pub open spec fn stats_grown(old: &Stats, new: &Stats, depth: nat, leaves: int) -> bool {
    &&& depth > 0 ==> new.nodes == capped(old.nodes + leaves)
    &&& depth == 0 ==> new.nodes == old.nodes
    &&& old.all_nodes < new.all_nodes || new.all_nodes == u64::MAX
    &&& old.captures <= new.captures
    &&& old.ep <= new.ep
    &&& old.castles <= new.castles
    &&& old.promotions <= new.promotions
    &&& new.checks == old.checks
    &&& new.checkmates == old.checkmates
}

/// Counts the leaves of the tree of legal move sequences of length `depth` from the board:
/// each legal move is made, the subtree below it counted and the move taken back. The leaves
/// are counted in `stats` by the kind of the move that reaches them, all visited nodes too;
/// the counts stop at the largest `u64`. On a board whose key is its zobrist hash the result
/// and each counter are stated exactly.
pub fn perft(depth: usize, board: &mut Board, stats: &mut Stats) -> (r: u64)
    requires
        legal_position(old(board)),
        old(board).gen_moves@.len() == 0,
        old(board).moves@.len() + depth <= 64,
        old(board).state.half_move + depth <= 255,
    ensures
        same_position(final(board), old(board)),
        final(board).gen_moves@.len() == 0,
        depth == 0 ==> r == 1,
        depth == 1 ==> r == legal_moves(old(board)).len(),
        old(board).state.key == position_hash(old(board)) ==> r == capped(perft_count(*old(board), depth as nat) as int),
        old(board).state.key == position_hash(old(board)) ==> tallied(old(stats), final(stats), *old(board), depth as nat),
        stats_grown(old(stats), final(stats), depth as nat, r as int),
    decreases depth,
{
    let ghost b0 = *old(board);
    let ghost s0 = *old(stats);
    let mut leaf_nodes: u64 = 0;
    stats.add_all_node();
    if depth == 0 {
        return 1;
    }
    let moves = board.gen_moves();
    let ghost bg = *board;
    proof {
        assert(bg.gen_moves@ =~= b0.gen_moves@);
        assert(same_position(&bg, &b0));
    }
    let ghost mut total: int = 0;
    let mut i: usize = 0;
    while i < moves.len()
        invariant
            depth > 0,
            i <= moves@.len() <= MAX_GEN,
            legal_position(&b0),
            b0.gen_moves@.len() == 0,
            b0.moves@.len() + depth <= 64,
            b0.state.half_move + depth <= 255,
            forall|j: int| 0 <= j < moves@.len() ==> gen_ok(&b0, #[trigger] moves@[j]),
            same_position(board, &b0),
            board.gen_moves@.len() == 0,
            total >= 0,
            leaf_nodes == capped(total),
            stats.nodes == capped(s0.nodes + total),
            s0.all_nodes < stats.all_nodes || stats.all_nodes == u64::MAX,
            s0.captures <= stats.captures,
            s0.ep <= stats.ep,
            s0.castles <= stats.castles,
            s0.promotions <= stats.promotions,
            stats.checks == s0.checks,
            stats.checkmates == s0.checkmates,
            moves@.no_duplicates(),
            forall|m: Move| #[trigger] gen_ok(&b0, m) ==> moves@.contains(m),
            depth == 1 ==> total == moves@.take(i as int).filter(legal_in(b0)).len(),
            b0.state.key == position_hash(&b0) ==> {
                let f = moves@.take(i as int).filter(legal_in(b0));
                &&& leaf_nodes == capped(seq_tally(b0, f, depth as nat, Tally::Leaves) as int)
                &&& stats.all_nodes == capped(s0.all_nodes + 1 + seq_tally(b0, f, depth as nat, Tally::Nodes))
                &&& stats.captures == capped(s0.captures + seq_tally(b0, f, depth as nat, Tally::Captures))
                &&& stats.ep == capped(s0.ep + seq_tally(b0, f, depth as nat, Tally::EnPassant))
                &&& stats.castles == capped(s0.castles + seq_tally(b0, f, depth as nat, Tally::Castles))
                &&& stats.promotions == capped(s0.promotions + seq_tally(b0, f, depth as nat, Tally::Promotions))
            },
        decreases moves@.len() - i,
    {
        let mv = moves[i];
        let ghost bm = *board;
        let ghost sm = *stats;
        proof {
            lemma_can_make(&b0, &bm, mv);
        }
        let legal = board.make_move(&mv);
        proof {
            let b1 = *board;
            lemma_made_is_legal(&b0, &bm, mv, legal, &b1);
            let t = moves@.take(i as int);
            assert(moves@.take(i as int + 1) =~= t.push(mv));
            t.lemma_filter_push(mv, legal_in(b0));
            let f = t.filter(legal_in(b0));
            assert(f.push(mv).drop_last() =~= f);
            assert(f.len() <= t.len()) by {
                broadcast use vstd::seq_lib::group_filter_ensures;
            }
        }
        if legal {
            let ghost b1 = *board;
            proof {
                lemma_child_ready(&b0, &bm, mv, &b1);
            }
            if depth == 1 {
                match mv.flag {
                    Flag::Quiet => stats.add_node(),
                    Flag::Capture(_) => stats.add_capture(),
                    Flag::EP => stats.add_ep(),
                    Flag::Promotion(_, _) => stats.add_promotion(),
                    Flag::KingCastle | Flag::QueenCastle => stats.add_castle(),
                    Flag::NullMove => {
                        proof {
                            assert(false);
                        }
                    },
                }
            }
            let ghost sl = *stats;
            let n = perft(depth - 1, board, stats);
            proof {
                let ghost sub: int = if depth == 1 { 1 } else { 0 };
                if b0.state.key == position_hash(&b0) {
                    reveal(made);
                    assert(position_hash(&bm) == position_hash(&b0)) by {
                        assert(bm.squares@ == b0.squares@);
                    }
                    assert(b1.state.key == position_hash(&b1));
                    lemma_same_moves(&bm, &b0, mv);
                    assert(made(&b0, mv, &b1));
                    lemma_child_made(b0, mv);
                    lemma_made_same(&b0, mv, &b1, &child(b0, mv));
                    let c = child(b0, mv);
                    let d1 = (depth - 1) as nat;
                    lemma_count_same(b1, c, d1, Tally::Leaves);
                    lemma_count_same(b1, c, d1, Tally::Nodes);
                    lemma_count_same(b1, c, d1, Tally::Captures);
                    lemma_count_same(b1, c, d1, Tally::EnPassant);
                    lemma_count_same(b1, c, d1, Tally::Castles);
                    lemma_count_same(b1, c, d1, Tally::Promotions);
                    let f = moves@.take(i as int).filter(legal_in(b0));
                    let f1 = moves@.take(i as int + 1).filter(legal_in(b0));
                    assert(f1 == f.push(mv));
                    assert(f1.drop_last() =~= f);
                    assert(f1.last() == mv);
                    lemma_capped(seq_tally(b0, f, depth as nat, Tally::Leaves) as int, perft_tally(c, d1, Tally::Leaves) as int);
                    lemma_capped(capped(seq_tally(b0, f, depth as nat, Tally::Leaves) as int), perft_tally(c, d1, Tally::Leaves) as int);
                    lemma_capped(s0.all_nodes + 1 + seq_tally(b0, f, depth as nat, Tally::Nodes), perft_tally(c, d1, Tally::Nodes) as int);
                    lemma_capped(s0.captures + seq_tally(b0, f, depth as nat, Tally::Captures), leaf_counted(Tally::Captures, mv) as int);
                    lemma_capped(s0.captures + seq_tally(b0, f, depth as nat, Tally::Captures) + leaf_counted(Tally::Captures, mv), perft_tally(c, d1, Tally::Captures) as int);
                    lemma_capped(s0.ep + seq_tally(b0, f, depth as nat, Tally::EnPassant), leaf_counted(Tally::EnPassant, mv) as int);
                    lemma_capped(s0.ep + seq_tally(b0, f, depth as nat, Tally::EnPassant) + leaf_counted(Tally::EnPassant, mv), perft_tally(c, d1, Tally::EnPassant) as int);
                    lemma_capped(s0.castles + seq_tally(b0, f, depth as nat, Tally::Castles), leaf_counted(Tally::Castles, mv) as int);
                    lemma_capped(s0.castles + seq_tally(b0, f, depth as nat, Tally::Castles) + leaf_counted(Tally::Castles, mv), perft_tally(c, d1, Tally::Castles) as int);
                    lemma_capped(s0.promotions + seq_tally(b0, f, depth as nat, Tally::Promotions), leaf_counted(Tally::Promotions, mv) as int);
                    lemma_capped(s0.promotions + seq_tally(b0, f, depth as nat, Tally::Promotions) + leaf_counted(Tally::Promotions, mv), perft_tally(c, d1, Tally::Promotions) as int);
                }
                if depth == 1 {
                    assert(n == 1);
                }
                lemma_capped(s0.nodes + total, sub);
                lemma_capped(total, n as int);
            }
            proof {
                total = total + n;
            }
            leaf_nodes = leaf_nodes.saturating_add(n);
            let ghost b2 = *board;
            proof {
                lemma_can_undo_same(&b1, &b2);
            }
            board.undo_move();
            proof {
                lemma_back(&bm, mv, &b1, &b2, board);
            }
        }
        i = i + 1;
    }
    proof {
        assert(moves@.take(moves@.len() as int) =~= moves@);
        lemma_legal_count(&b0, moves@);
        lemma_seq_count_set(b0, moves@.filter(legal_in(b0)), depth as nat, Tally::Leaves);
        lemma_seq_count_set(b0, moves@.filter(legal_in(b0)), depth as nat, Tally::Nodes);
        lemma_seq_count_set(b0, moves@.filter(legal_in(b0)), depth as nat, Tally::Captures);
        lemma_seq_count_set(b0, moves@.filter(legal_in(b0)), depth as nat, Tally::EnPassant);
        lemma_seq_count_set(b0, moves@.filter(legal_in(b0)), depth as nat, Tally::Castles);
        lemma_seq_count_set(b0, moves@.filter(legal_in(b0)), depth as nat, Tally::Promotions);
    }
    leaf_nodes
}

/// A generated move of a legal position may be made on a board in the same position.
proof fn lemma_can_make(b0: &Board, b: &Board, mv: Move)
    requires
        legal_position(b0),
        gen_ok(b0, mv),
        same_position(b, b0),
        b0.state.half_move < 255,
    ensures
        can_make_spec(b, mv),
        gen_ok(b, mv),
        legal_position(b),
{
    reveal(can_make_spec);
    crate::mv_gen::lemma_gen_frame(b0, b, mv);
    assert(b.wf() == b0.wf());
    assert(king_attacked(b, opp_color(b.state.color)) == king_attacked(b0, opp_color(b0.state.color)));
}

/// After a legal move of a legal position, the board is a legal position one move longer.
proof fn lemma_child_ready(b0: &Board, bm: &Board, mv: Move, b1: &Board)
    requires
        legal_position(bm),
        gen_ok(bm, mv),
        same_position(bm, b0),
        made(bm, mv, b1),
        !king_attacked(b1, bm.state.color),
        b1.has_king(bm.state.color as int),
        bm.gen_moves@.len() == 0,
    ensures
        legal_position(b1),
        b1.gen_moves@.len() == 0,
        b1.moves@.len() == b0.moves@.len() + 1,
        b1.state.half_move <= b0.state.half_move + 1,
{
    lemma_opp_king_survives(bm, mv, b1);
    reveal(made);
    assert(opp_color(b1.state.color) == bm.state.color);
}

/// A board in the same position as another may take back the same move.
proof fn lemma_can_undo_same(b1: &Board, b2: &Board)
    requires
        can_undo_spec(b1),
        same_position(b2, b1),
    ensures
        can_undo_spec(b2),
{
}

/// Taking back the move after the subtree below it was counted gives back the board.
proof fn lemma_back(bm: &Board, mv: Move, b1: &Board, b2: &Board, b3: &Board)
    requires
        can_make_spec(bm, mv),
        made(bm, mv, b1),
        same_position(b2, b1),
        undone(b2, b3),
    ensures
        same_position(b3, bm),
{
    reveal(made);
    assert(b2.moves@.len() > 0);
    assert(undone(b1, b3));
    lemma_undo_after_make(bm, mv, b1, b3);
}

/// Decides whether the position can be enumerated: its castling rights and en passant square
/// fit the pieces, both kings stand and the side that just moved is not in check.
pub fn is_legal_position(board: &Board) -> (r: bool)
    requires
        board.pieces_ok(),
    ensures
        r == legal_position(board),
{
    if board.state.color >= 2 || board.state.castling >= 16 {
        return false;
    }
    let mut i: usize = 0;
    while i < 4
        invariant
            i <= 4,
            forall|j: int| 0 <= j < i && #[trigger] cr_has(board.state.castling, castle_right(j)) ==> board.squares[castle_rook_home(j)]
                == Some((ROOK + castle_color(j)) as u8) && board.squares[castle_king_home(j)] == Some((KING + castle_color(j)) as u8),
        decreases 4 - i,
    {
        let (rook_home, king_home, right, clr) = castle_data(i);
        if board.state.castling & right != 0 {
            if board.squares[rook_home] != Some(ROOK + clr) || board.squares[king_home] != Some(KING + clr) {
                proof {
                    assert(cr_has(board.state.castling, castle_right(i as int)));
                }
                return false;
            }
        }
        proof {
            assert(board.state.castling & right != 0 <==> cr_has(board.state.castling, castle_right(i as int)));
        }
        i = i + 1;
    }
    assert(board.castling_ok());
    if let Some(e) = board.state.ep {
        if e >= 64 {
            return false;
        }
        let white = board.state.color == WHITE;
        let row_ok = if white { e / 8 == 5 } else { e / 8 == 2 };
        if !row_ok {
            return false;
        }
        let behind = if white { e - 8 } else { e + 8 };
        if board.squares[e as usize].is_some() || board.squares[behind as usize] != Some(PAWN + 1 - board.state.color) {
            return false;
        }
    }
    assert(board.ep_ok());
    if board.bitboard[KING as usize] == 0 || board.bitboard[(KING + 1) as usize] == 0 {
        return false;
    }
    board.king_safe(1 - board.state.color)
}

/// The counters `st`, started at zero, after the enumeration of the sequences of `depth`
/// legal moves from `b`: each counts what the enumeration counts, up to the largest `u64`.
pub open spec fn tallies_of(st: &Stats, b: Board, depth: nat) -> bool {
    &&& st.all_nodes == capped(perft_tally(b, depth, Tally::Nodes) as int)
    &&& st.nodes == if depth == 0 { 0 } else { capped(perft_count(b, depth) as int) }
    &&& st.captures == capped(perft_tally(b, depth, Tally::Captures) as int)
    &&& st.ep == capped(perft_tally(b, depth, Tally::EnPassant) as int)
    &&& st.castles == capped(perft_tally(b, depth, Tally::Castles) as int)
    &&& st.promotions == capped(perft_tally(b, depth, Tally::Promotions) as int)
    &&& st.checks == 0
    &&& st.checkmates == 0
}

/// A position read from `fen`, enumerated to `depth` moves; `None` when the text is no valid
/// FEN, when the position cannot be enumerated, or when the depth passes the plies the
/// killer table holds or the half move clock.
pub fn perft_from_fen(fen: &str, depth: usize) -> (r: Option<(u64, Stats)>)
    ensures
        r is Some <==> ({
            &&& fen_valid(fen.spec_bytes())
            &&& depth <= 64
            &&& exists|b: Board| fen_board(fen.spec_bytes(), &b) && legal_position(&b) && b.state.half_move + depth <= 255
        }),
        r matches Some((n, st)) ==> (depth == 0 ==> n == 1) && st.nodes == if depth == 0 { 0 } else { n },
        r matches Some((n, st)) ==> (depth == 1 ==> exists|b: Board| fen_board(fen.spec_bytes(), &b) && n == #[trigger] legal_moves(&b).len()),
        r matches Some((n, st)) ==> exists|b: Board| fen_board(fen.spec_bytes(), &b) && n == capped(#[trigger] perft_count(b, depth as nat) as int)
            && tallies_of(&st, b, depth as nat),
{
    let mut board = match try_read_fen(fen) {
        Some(b) => b,
        None => return None,
    };
    if depth > 64 || !is_legal_position(&board) || board.state.half_move as usize + depth > 255 {
        proof {
            assert forall|b: Board| fen_board(fen.spec_bytes(), &b) implies !(legal_position(&b) && b.state.half_move + depth <= 255 && depth <= 64) by {
                lemma_fen_board_unique(fen.spec_bytes(), &b, &board);
            }
        }
        return None;
    }
    let mut stats = Stats::init();
    let ghost s0 = stats;
    let ghost b0 = board;
    let n = perft(depth, &mut board, &mut stats);
    proof {
        if depth == 1 {
            assert(fen_board(fen.spec_bytes(), &b0) && n == legal_moves(&b0).len());
        }
        assert(fen_board(fen.spec_bytes(), &b0) && n == capped(perft_count(b0, depth as nat) as int) && tallies_of(&stats, b0, depth as nat));
    }
    Some((n, stats))
}

/// Two boards read from the same text are the same position.
proof fn lemma_fen_board_unique(f: Seq<u8>, a: &Board, b: &Board)
    requires
        fen_board(f, a),
        fen_board(f, b),
    ensures
        legal_position(a) == legal_position(b),
        a.state.half_move == b.state.half_move,
{
    assert(a.squares =~= b.squares);
    crate::make_move::lemma_bitboards_from_squares(a, b);
    assert(a.state.color == b.state.color && a.state.castling == b.state.castling && a.state.ep == b.state.ep);
}

} // verus!
