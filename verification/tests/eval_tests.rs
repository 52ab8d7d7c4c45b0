use fri_challenger::board::Board;
use fri_challenger::evaluation::{CommonEvalTrait, ImbalanceEvalTrait, InitEvalTrait, MaterialEvalTrait, MobilityEvalTrait, SFEval, TempoEvalTrait};
use fri_challenger::fen::FenTrait;
use fri_challenger::piece::{BLACK, BLACK_QUEEN, WHITE, WHITE_KNIGHT, WHITE_PAWN};

const SF_EVAL: [SFEval; 11] = [
    SFEval {
        fen: "r3r1k1/3q1pp1/p2pb2p/Np6/1P1QPn2/5N1P/1P3PP1/R3R1K1 w - - 0 0",
        phase: 106,
        eval: -34,

        material: -46,
        psqt: -56,
        imbalance: 36,
        pawns: 6,
        piece: 52,
        mobility: -30,
        threats: 4,
        passed_pawn: 0,
        space: 12,
        king: -67,
        winnable: -123465, // FIXME:
        tempo: 28,
    },
    SFEval {
        fen: "1rb1r1k1/2q2pp1/1b1p2np/1pp5/3Pn3/1B2BNNP/1P1Q1PP1/R3R1K1 w - - 0 0",
        phase: 128,
        eval: -244,

        material: -124,
        psqt: -2,
        imbalance: -50,
        pawns: -91,
        piece: 55,
        mobility: 18,
        threats: -127,
        passed_pawn: 0,
        space: -21,
        king: 39,
        winnable: -123465, // FIXME:
        tempo: 28,
    },
    SFEval {
        fen: "3r2k1/2p2bpp/p2r4/P2PpP2/BR1q4/7P/5PP1/2R1Q1K1 b - - 0 0",
        phase: 89,
        eval: 404,

        material: 148,
        psqt: -50,
        imbalance: 19,
        pawns: 40,
        piece: 40,
        mobility: 61,
        threats: 165,
        passed_pawn: 0,
        space: 0,
        king: 102,
        winnable: -123465, // FIXME:
        tempo: -28,
    },
    SFEval {
        fen: "rnb1k2r/2p1ppPp/5bn1/p1p5/P2p2p1/P2P1P1P/6P1/RNB1KBNR b KQkq - 0 0",
        phase: 89,
        eval: -444,

        material: -151,
        psqt: -90,
        imbalance: -65,
        pawns: -25,
        piece: 7,
        mobility: -124,
        threats: -71,
        passed_pawn: 233,
        space: 0,
        king: -124,
        winnable: -123465, // FIXME:
        tempo: -28,
    },
    SFEval {
        fen: "r1bqk1r1/1p1p1n2/p1n2pN1/2p1b2Q/2P1Pp2/1PN5/PB4PP/R4RK1 w q - 0 0",
        phase: 128,
        eval: -836,

        material: -825,
        psqt: 154,
        imbalance: -148,
        king: -135,
        mobility: 103,
        passed_pawn: 10,
        pawns: 93,
        piece: -11,
        space: -15,
        threats: -104,
        winnable: -123465, // FIXME:
        tempo: 28,
    },
    SFEval {
        fen: "r1n2N1k/2n2K1p/3pp3/5Pp1/b5R1/8/1PPP4/8 w - - 0 0",
        phase: 20,
        eval: -1476,

        material: -1743,
        psqt: 124,
        imbalance: -123,
        king: -187,
        mobility: -21,
        passed_pawn: 231,
        pawns: -46,
        piece: 159,
        space: 0,
        threats: 154,
        winnable: -64,
        tempo: 28,
    },
    SFEval {
        fen: "4rrk1/Rpp3pp/6q1/2PPn3/4p3/2N5/1P2QPPP/5RK1 w - - 0 0",
        phase: 88,
        eval: 204,

        material: 149,
        psqt: -35,
        imbalance: 29,
        king: -204,
        mobility: -25,
        passed_pawn: 67,
        pawns: 143,
        piece: -19,
        space: 0,
        threats: 91,
        winnable: -3,
        tempo: 28,
    },
    SFEval {
        fen: "r3kb1r/3n1ppp/p3p3/1p1pP2P/P3PBP1/4P3/1q2B3/R2Q1K1R b kq - 0 0",
        phase: 107,
        eval: -348,

        material: -90,
        psqt: 151,
        imbalance: -21,
        king: -102,
        mobility: 25,
        passed_pawn: -38,
        pawns: -169,
        piece: -45,
        space: -3,
        threats: -24,
        winnable: -3,
        tempo: -28,
    },
    SFEval {
        fen: "rnb2rk1/pp2q2p/3p4/2pP2p1/2P1Pp2/2N5/PP1QBRPP/R5K1 w - - 0 0",
        phase: 106,
        eval: 172,

        material: 0,
        psqt: 137,
        imbalance: 0,
        king: -30,
        mobility: 68,
        passed_pawn: 0,
        pawns: -39,
        piece: 4,
        space: 20,
        threats: -14,
        winnable: 4,
        tempo: 28,
    },
    SFEval {
        fen: "8/2P1P3/b1B2p2/1pPRp3/2k3P1/P4pK1/nP3p1p/N7 w - - 0 0",
        phase: 106,
        eval: 1612,

        material: 1375,
        psqt: -82,
        imbalance: 10,
        king: 143,
        mobility: 165,
        passed_pawn: -336,
        pawns: 66,
        piece: -14,
        space: 0,
        threats: 117,
        winnable: 143,
        tempo: 28,
    },
    SFEval {
        fen: "rnbqkbnr/pppppppp/8/8/8/8/PPPPPPPP/RNBQKBNR w KQkq - 0 1",
        phase: 128,
        eval: 28,

        material: 0,
        psqt: 0,
        imbalance: 0,
        king: 0,
        mobility: 0,
        passed_pawn: 0,
        pawns: 0,
        piece: 0,
        space: 0,
        threats: 0,
        winnable: 0,
        tempo: 28,
    },
];

fn stockfish_eval(phase: isize, mg_value: isize, eg_value: isize) -> isize {
    (phase * mg_value + (128 - phase) * eg_value) / 128
}

#[test]
fn material_test() {
    for obj in &SF_EVAL {
        if obj.fen != SF_EVAL[10].fen {
            continue;
        }
        let mut board = Board::read_fen(obj.fen);
        board.init();
        board.material_eval(WHITE);
        board.material_eval(BLACK);
        assert_eq!(board.calculate_score(), obj.material);
    }
}

#[test]
fn testing() {
    let phase: isize = 0;
    println!("      material: {:?},", stockfish_eval(phase, 0, 0));
    println!("          psqt: {:?},", stockfish_eval(phase, 0, 0));
    println!("      imbalance: {:?},", stockfish_eval(phase, 0, 0));
    println!("           king: {:?},", stockfish_eval(phase, 0, 0));
    println!("      mobility: {:?},", stockfish_eval(phase, 0, 0));
    println!("   passed_pawn: {:?},", stockfish_eval(phase, 0, 0));
    println!("         pawns: {:?},", stockfish_eval(phase, 0, 0));
    println!("         piece: {:?},", stockfish_eval(phase, 0, 0));
    println!("         space: {:?},", stockfish_eval(phase, 0, 0));
    println!("       threats: {:?},", stockfish_eval(phase, 0, 0));
    println!("      winnable: {:?},", stockfish_eval(phase, 0, 0));
}

#[test]
fn start_position_is_middle_game() {
    let mut board = Board::read_fen(SF_EVAL[10].fen);
    board.init();
    assert_eq!(board.eval.phase, (128, 0));
    assert_eq!(board.non_pawn_material_eval(WHITE), 2 * 781 + 2 * 825 + 2 * 1276 + 2538);
}

#[test]
fn phase_of_a_rook_ending_is_end_game() {
    let mut board = Board::read_fen("4k3/8/8/8/8/8/8/R3K3 w - - 0 1");
    board.init();
    assert_eq!(board.eval.phase, (0, 128));
}

#[test]
fn phase_in_between() {
    let mut board = Board::read_fen("3qk3/8/8/8/8/8/8/3QK3 w - - 0 1");
    board.init();
    let expected = ((2 * 2538 - 3915) * 128) / (15258 - 3915);
    assert_eq!(board.eval.phase, (expected, 128 - expected));
}

#[test]
fn material_counts_each_piece() {
    let mut board = Board::read_fen("4k3/8/8/8/8/8/PPP5/1N2K3 w - - 0 1");
    board.init();
    board.material_eval(WHITE);
    assert_eq!(board.eval.score[0], (3 * 124 + 781, 3 * 206 + 854));
    assert_eq!(board.eval.score[1], (0, 0));
    assert_eq!(board.calculate_score(), 3 * 206 + 854);
    assert_eq!(board.piece_material(BLACK_QUEEN), (2538, 2682));
    assert_eq!(board.piece_material(WHITE_KNIGHT), (781, 854));
    assert_eq!(board.piece_material(WHITE_PAWN), (124, 206));
}

#[test]
fn tapered_rounds_toward_zero() {
    let mut board = Board::read_fen("4k3/8/8/8/8/8/8/4K3 w - - 0 1");
    board.eval.phase = (64, 64);
    assert_eq!(board.tapered((-3, 0)), -1);
    assert_eq!(board.tapered((3, 0)), 1);
    board.tempo(BLACK);
    assert_eq!(board.eval.score[1], (28, 28));
    assert_eq!(board.calculate_score(), -28);
}

#[test]
fn insufficient_material_of_minor_pieces() {
    assert!(Board::read_fen("4k3/8/8/8/8/8/8/1N2K3 w - - 0 1").insufficient_material());
    assert!(!Board::read_fen("4k3/8/8/8/8/8/P7/4K3 w - - 0 1").insufficient_material());
    assert!(!Board::read_fen("4k3/8/8/8/8/8/8/RN2K3 w - - 0 1").insufficient_material());
}

#[test]
fn squares_in_front_and_behind() {
    let mut board = Board::read_fen("4k3/8/8/8/8/8/8/4K3 w - - 0 1");
    assert_eq!(board.front_sq(12, WHITE), 20);
    assert_eq!(board.front_sq(52, BLACK), 44);
    assert_eq!(board.back_sq(20, WHITE), 12);
    assert_eq!(board.king_dist(WHITE, 63), 7);
    assert_eq!(board.king_dist(BLACK, 12), 6);
}

fn eval_assert(actual: isize, expected: isize, diff: usize, only_trace: bool) {
    let abs_diff = actual.abs_diff(expected);
    if abs_diff <= diff {
        if only_trace {
            println!("assertion `{:?} == {:?}` Success", actual, expected);
        } else {
            assert!(abs_diff <= diff, "assertion `{:?} == {:?}` Success", actual, expected);
        }
    } else {
        if only_trace {
            println!("assertion `{:?} == {:?}` Failed", actual, expected);
        } else {
            assert!(abs_diff <= diff, "assertion `{:?} == {:?}` Failed", actual, expected);
        }
    }
}

#[test]
fn imbalance_test() {
    for obj in &SF_EVAL {
        let mut board = Board::read_fen(obj.fen);
        board.init();
        board.imbalance(WHITE);
        board.imbalance(BLACK);

        eval_assert(board.calculate_score(), obj.imbalance, 1, false);
    }
}

#[test]
fn imbalance_of_the_start_position() {
    let mut board = Board::initialize();
    board.init();
    board.imbalance(WHITE);
    // Pawns 8 (40*8 ... ), knights, bishops, rooks, queen with the pair: one exact value.
    let ours = [1isize, 8, 2, 2, 2, 1];
    let qo: [[isize; 6]; 6] = [
        [0, 0, 0, 0, 0, 0],
        [40, 38, 0, 0, 0, 0],
        [32, 255, -62, 0, 0, 0],
        [0, 104, 4, 0, 0, 0],
        [-26, -2, 47, 105, -208, 0],
        [-189, 24, 117, 133, -134, -6],
    ];
    let qt: [[isize; 6]; 6] = [
        [0, 0, 0, 0, 0, 0],
        [36, 0, 0, 0, 0, 0],
        [9, 63, 0, 0, 0, 0],
        [59, 65, 42, 0, 0, 0],
        [46, 39, 24, -24, 0, 0],
        [97, 100, -42, 137, 268, 0],
    ];
    let mut bonus = 0isize;
    for i in 1..6 {
        let mut s = 0isize;
        for j in 0..6 {
            s += qo[i][j] * ours[j] + qt[i][j] * ours[j];
        }
        bonus += ours[i] * s;
    }
    bonus = (bonus + 1438) / 16;
    assert_eq!(board.eval.score[0], (bonus, bonus));
    assert_eq!(board.eval.score[1], (0, 0));
}

#[test]
fn get_mask_of_a_knight_and_a_blocked_rook() {
    let mut board = Board::initialize();
    assert_eq!(board.get_mask(WHITE_KNIGHT, 1), (1u64 << 11) | (1u64 << 16) | (1u64 << 18));
    // The rook on a1 is shut in by its own pawn and knight.
    assert_eq!(board.get_mask(fri_challenger::piece::WHITE_ROOK, 0), (1u64 << 1) | (1u64 << 8));
}

#[test]
fn x_ray_mask_sees_through_sliders() {
    let mut board = Board::read_fen("4k3/8/8/8/8/8/R7/R3K3 w - - 0 1");
    let rook = fri_challenger::piece::WHITE_ROOK;
    let file_a: u64 = (1..8).map(|r| 1u64 << (8 * r)).fold(0, |a, b| a | b);
    assert_eq!(board.get_mask(rook, 0), (1u64 << 8) | (1u64 << 1) | (1u64 << 2) | (1u64 << 3) | (1u64 << 4));
    assert_eq!(board.x_ray_mask(rook, 0), file_a | (1u64 << 1) | (1u64 << 2) | (1u64 << 3) | (1u64 << 4));
    let mut board = Board::read_fen("4k3/8/8/8/3Q4/8/1B6/4K3 w - - 0 1");
    let bishop = fri_challenger::piece::WHITE_BISHOP;
    let through = board.x_ray_mask(bishop, 9);
    assert!(through & (1u64 << 45) != 0);
    assert!(board.get_mask(bishop, 9) & (1u64 << 45) == 0);
}

#[test]
fn mobility_of_a_lone_knight() {
    let mut board = Board::read_fen("4k3/8/8/8/8/8/8/N3K3 w - - 0 1");
    board.init();
    board.mobility_eval(WHITE);
    assert_eq!(board.eval.score[0], (-12, -31));
    assert_eq!(board.eval.score[1], (0, 0));
}

#[test]
fn mobility_counts_only_safe_squares() {
    // The rook on a1 reaches a2..a8 and b1..d1; its own king on e1 is left out.
    let mut board = Board::read_fen("4k3/8/8/8/8/8/8/R3K3 w - - 0 1");
    board.init();
    let area = board.mobility_area(WHITE);
    let rook = fri_challenger::piece::WHITE_ROOK;
    let reach = board.mobility_piece(0, rook, WHITE);
    assert_eq!((reach & area).count_ones(), 10);
    board.mobility_eval(WHITE);
    let bonus = board.mobility_bonus(rook, 10);
    assert_eq!(board.eval.score[0], bonus);
    assert_eq!(board.mobility_bonus(rook, 10), (41, 158));
}
