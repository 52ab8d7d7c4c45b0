use vstd::prelude::*;
use crate::bits::Bitboard;

verus! {

/// The working state of the evaluation of a position.
#[derive(Debug, PartialEq, Eq)]
pub struct Evaluation {
    // Attack Maps
    pub attack_map: [Bitboard; 2],
    pub attacked_by: [Bitboard; 14],
    pub attacked_by_2: [Bitboard; 2],
    pub defend_map: [Bitboard; 2],
    pub x_ray: [Bitboard; 14],
    pub queen_diagonal: [Bitboard; 2],
    // Mobility Evaluation
    pub mobility_area: [Bitboard; 2],
    pub mobility: [isize; 2],
    // Space Evaluation
    pub pawn_behind_masks: [Bitboard; 2],
    // Threats Evaluation
    pub weak_enemy: [Bitboard; 2],
    // Passed Pawn Evaluation
    pub candidate_passed: [Bitboard; 2],
    // Piece Evaluation
    pub outpost: [Bitboard; 2],
    pub open_file: [Bitboard; 2],
    pub pawn_att_span: [Bitboard; 2],
    pub king_att_count_pieces: [u64; 2],
    // King Evaluation
    pub king_att_weight: [isize; 2],
    pub king_att_count: [usize; 2],
    pub king_att: [usize; 2],
    pub king_pawn_dx: [u8; 2],
    pub king_shelter: [(isize, isize, isize); 2],
    pub checks: [Bitboard; 14],
    pub king_ring: [Bitboard; 2],
    // Trace
    pub mg_test: [[isize; 64]; 2],
    pub eg_test: [[isize; 64]; 2],
    pub vec_test: Vec<String>,
    // Evaluation
    pub material_eval: [(isize, isize); 2],
    pub psqt_eval: [(isize, isize); 2],
    pub mobility_eval: [(isize, isize); 2],
    pub pawn_eval: [(isize, isize); 2],
    // Score
    pub pawn_hash_hit: bool,
    pub phase: (isize, isize),
    pub score: [(isize, isize); 2],
}

impl Evaluation {
    /// The part of the evaluation state that `reset` clears holds its initial values.
    pub open spec fn is_cleared(&self) -> bool {
        &&& forall|i: int| 0 <= i < 2 ==> self.attack_map[i] == 0 && self.attacked_by_2[i] == 0 && self.defend_map[i] == 0
            && self.queen_diagonal[i] == 0 && self.mobility_area[i] == 0 && self.mobility[i] == 0
            && self.pawn_behind_masks[i] == 0 && self.weak_enemy[i] == 0 && self.candidate_passed[i]
            == 0 && self.outpost[i] == 0 && self.open_file[i] == u64::MAX && self.pawn_att_span[i]
            == 0 && self.king_att_count_pieces[i] == 0 && self.king_att_weight[i] == 0
            && self.king_att_count[i] == 0 && self.king_att[i] == 0 && self.king_pawn_dx[i] == 6
            && self.king_shelter[i] == (0isize, 0isize, 0isize) && self.king_ring[i] == 0
            && self.mobility_eval[i] == (0isize, 0isize) && self.pawn_eval[i] == (0isize, 0isize)
            && self.score[i] == (0isize, 0isize)
        &&& forall|i: int| 0 <= i < 14 ==> self.attacked_by[i] == 0 && self.x_ray[i] == 0
            && self.checks[i] == 0
        &&& !self.pawn_hash_hit
        &&& self.phase == (0isize, 0isize)
    }

    /// The incrementally kept material and square table sums are zero.
    pub open spec fn is_inc_cleared(&self) -> bool {
        forall|i: int| 0 <= i < 2 ==> self.material_eval[i] == (0isize, 0isize) && self.psqt_eval[i]
            == (0isize, 0isize)
    }

    /// The trace tables are zero.
    pub open spec fn trace_cleared(&self) -> bool {
        &&& forall|c: int, s: int| 0 <= c < 2 && 0 <= s < 64 ==> self.mg_test[c][s] == 0 && self.eg_test[c][s] == 0
        &&& self.vec_test@.len() == 0
    }

    pub fn init() -> (r: Self)
        ensures
            r.is_cleared(),
            r.is_inc_cleared(),
            r.trace_cleared(),
    {
        Self {
            attack_map: [0;2],
            attacked_by: [0;14],
            attacked_by_2: [0;2],
            defend_map: [0;2],
            x_ray: [0;14],
            queen_diagonal: [0;2],
            mobility_area: [0;2],
            mobility: [0;2],
            pawn_behind_masks: [0;2],
            weak_enemy: [0;2],
            candidate_passed: [0;2],
            outpost: [0;2],
            open_file: [u64::MAX;2],
            pawn_att_span: [0;2],
            king_att_count_pieces: [0;2],
            king_att_weight: [0;2],
            king_att_count: [0;2],
            king_att: [0;2],
            king_pawn_dx: [6;2],
            king_shelter: [(0, 0, 0);2],
            checks: [0;14],
            king_ring: [0;2],
            mg_test: [[0;64];2],
            eg_test: [[0;64];2],
            vec_test: Vec::with_capacity(200),
            material_eval: [(0, 0);2],
            psqt_eval: [(0, 0);2],
            mobility_eval: [(0, 0);2],
            pawn_eval: [(0, 0);2],
            pawn_hash_hit: false,
            phase: (0, 0),
            score: [(0, 0);2],
        }
    }

    /// Clears the state of one evaluation; keeps the incremental sums and the trace.
    pub fn reset(&mut self)
        ensures
            final(self).is_cleared(),
            final(self).material_eval == old(self).material_eval,
            final(self).psqt_eval == old(self).psqt_eval,
            final(self).mg_test == old(self).mg_test,
            final(self).eg_test == old(self).eg_test,
            final(self).vec_test@ == old(self).vec_test@,
    {
        self.attack_map = [0;2];
        self.attacked_by = [0;14];
        self.attacked_by_2 = [0;2];
        self.defend_map = [0;2];
        self.x_ray = [0;14];
        self.queen_diagonal = [0;2];
        self.mobility_area = [0;2];
        self.mobility = [0;2];
        self.pawn_behind_masks = [0;2];
        self.weak_enemy = [0;2];
        self.candidate_passed = [0;2];
        self.king_att_count_pieces = [0;2];
        self.open_file = [u64::MAX;2];
        self.outpost = [0;2];
        self.pawn_att_span = [0;2];
        self.king_ring = [0;2];
        self.checks = [0;14];
        self.king_att_weight = [0;2];
        self.king_att_count = [0;2];
        self.king_att = [0;2];
        self.king_pawn_dx = [6;2];
        self.king_shelter = [(0, 0, 0);2];
        self.mobility_eval = [(0, 0);2];
        self.pawn_eval = [(0, 0);2];
        self.pawn_hash_hit = false;
        self.phase = (0, 0);
        self.score = [(0, 0);2];
    }

    /// Clears the incremental material and square table sums.
    pub fn inc_reset(&mut self)
        ensures
            final(self).is_inc_cleared(),
            *final(self) == (Evaluation {
                material_eval: final(self).material_eval,
                psqt_eval: final(self).psqt_eval,
                ..*old(self)
            }),
    {
        self.material_eval = [(0, 0);2];
        self.psqt_eval = [(0, 0);2];
    }

    /// Clears the state of one evaluation and the incremental sums.
    pub fn full_reset(&mut self)
        ensures
            final(self).is_cleared(),
            final(self).is_inc_cleared(),
            final(self).mg_test == old(self).mg_test,
            final(self).eg_test == old(self).eg_test,
            final(self).vec_test@ == old(self).vec_test@,
    {
        self.reset();
        self.inc_reset();
    }
}

} // verus!
