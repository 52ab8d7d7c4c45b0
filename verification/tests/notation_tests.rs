use fri_challenger::board::{Board, FEN_START};
use fri_challenger::fen::FenTrait;
use fri_challenger::make_move::BoardMoveTrait;
use fri_challenger::moves::{Flag, Move};
use fri_challenger::notation::{from_move_notation, get_move_list, get_pv_move_list, move_notation, sq_notation};
use fri_challenger::piece::{BLACK_KNIGHT, WHITE_PAWN, WHITE_QUEEN};

#[test]
fn test_hash_v2() {
    let mut board = Board::read_fen(FEN_START);
    let moves = ["e2e4", "e7e5", "b1c3", "b8c6", "c3b1", "c6b8"];
    let boards = [
        Board::read_fen("rnbqkbnr/pppppppp/8/8/8/8/PPPPPPPP/RNBQKBNR w KQkq - 0 1").key(),
        Board::read_fen("rnbqkbnr/pppppppp/8/8/4P3/8/PPPP1PPP/RNBQKBNR b KQkq e3 0 1").key(),
        Board::read_fen("rnbqkbnr/pppp1ppp/8/4p3/4P3/8/PPPP1PPP/RNBQKBNR w KQkq e6 0 2").key(),
        Board::read_fen("rnbqkbnr/pppp1ppp/8/4p3/4P3/2N5/PPPP1PPP/R1BQKBNR b KQkq - 1 2").key(),
        Board::read_fen("r1bqkbnr/pppp1ppp/2n5/4p3/4P3/2N5/PPPP1PPP/R1BQKBNR w KQkq - 2 3")
            .key(),
        Board::read_fen("r1bqkbnr/pppp1ppp/2n5/4p3/4P3/8/PPPP1PPP/RNBQKBNR b KQkq - 3 3").key(),
        Board::read_fen("rnbqkbnr/pppp1ppp/8/4p3/4P3/8/PPPP1PPP/RNBQKBNR w KQkq - 4 4").key(),
    ];
    assert_eq!(boards[0], board.key());

    for (idx, notation) in moves.iter().enumerate() {
        let mv = from_move_notation(&notation, &mut board).unwrap();
        board.make_move(&mv);
        assert_eq!(boards[idx + 1], board.key());
    }
}

#[test]
fn test_hash_v3() {
    let mut board = Board::read_fen(FEN_START);
    let moves = ["e2e4", "e7e5", "g1f3", "b8c6", "f1c4", "d7d6", "e1g1", 
                "c8g4", "a2a4", "d8d7", "a4a5", "e8c8", "d1e2", "b7b5", "a5b6", 
                "g4f3", "b6a7", "f3e2", "a7a8Q", "c6b8", "c4e2", "h7h5", "e2a6"  ];
    let boards = [
        Board::read_fen("rnbqkbnr/pppppppp/8/8/8/8/PPPPPPPP/RNBQKBNR w KQkq - 0 1").key(), 
        Board::read_fen("rnbqkbnr/pppppppp/8/8/4P3/8/PPPP1PPP/RNBQKBNR b KQkq e3 0 1").key(),
        Board::read_fen("rnbqkbnr/pppp1ppp/8/4p3/4P3/8/PPPP1PPP/RNBQKBNR w KQkq e6 0 2").key(),
        Board::read_fen("rnbqkbnr/pppp1ppp/8/4p3/4P3/5N2/PPPP1PPP/RNBQKB1R b KQkq - 1 2").key(),
        Board::read_fen("r1bqkbnr/pppp1ppp/2n5/4p3/4P3/5N2/PPPP1PPP/RNBQKB1R w KQkq - 2 3").key(),
        Board::read_fen("r1bqkbnr/pppp1ppp/2n5/4p3/2B1P3/5N2/PPPP1PPP/RNBQK2R b KQkq - 3 3").key(),
        Board::read_fen("r1bqkbnr/ppp2ppp/2np4/4p3/2B1P3/5N2/PPPP1PPP/RNBQK2R w KQkq - 0 4").key(),
        Board::read_fen("r1bqkbnr/ppp2ppp/2np4/4p3/2B1P3/5N2/PPPP1PPP/RNBQ1RK1 b kq - 1 4").key(),
        Board::read_fen("r2qkbnr/ppp2ppp/2np4/4p3/2B1P1b1/5N2/PPPP1PPP/RNBQ1RK1 w kq - 2 5").key(),
        Board::read_fen("r2qkbnr/ppp2ppp/2np4/4p3/P1B1P1b1/5N2/1PPP1PPP/RNBQ1RK1 b kq a3 0 5").key(),
        Board::read_fen("r3kbnr/pppq1ppp/2np4/4p3/P1B1P1b1/5N2/1PPP1PPP/RNBQ1RK1 w kq - 1 6").key(),
        Board::read_fen("r3kbnr/pppq1ppp/2np4/P3p3/2B1P1b1/5N2/1PPP1PPP/RNBQ1RK1 b kq - 0 6").key(),
        Board::read_fen("2kr1bnr/pppq1ppp/2np4/P3p3/2B1P1b1/5N2/1PPP1PPP/RNBQ1RK1 w - - 1 7").key(),
        Board::read_fen("2kr1bnr/pppq1ppp/2np4/P3p3/2B1P1b1/5N2/1PPPQPPP/RNB2RK1 b - - 2 7").key(),
        Board::read_fen("2kr1bnr/p1pq1ppp/2np4/Pp2p3/2B1P1b1/5N2/1PPPQPPP/RNB2RK1 w - b6 0 8").key(),
        Board::read_fen("2kr1bnr/p1pq1ppp/1Pnp4/4p3/2B1P1b1/5N2/1PPPQPPP/RNB2RK1 b - - 0 8").key(),
        Board::read_fen("2kr1bnr/p1pq1ppp/1Pnp4/4p3/2B1P3/5b2/1PPPQPPP/RNB2RK1 w - - 0 9").key(),
        Board::read_fen("2kr1bnr/P1pq1ppp/2np4/4p3/2B1P3/5b2/1PPPQPPP/RNB2RK1 b - - 0 9").key(),
        Board::read_fen("2kr1bnr/P1pq1ppp/2np4/4p3/2B1P3/8/1PPPbPPP/RNB2RK1 w - - 0 10").key(),
        Board::read_fen("Q1kr1bnr/2pq1ppp/2np4/4p3/2B1P3/8/1PPPbPPP/RNB2RK1 b - - 0 10").key(),
        Board::read_fen("Qnkr1bnr/2pq1ppp/3p4/4p3/2B1P3/8/1PPPbPPP/RNB2RK1 w - - 1 11").key(),
        Board::read_fen("Qnkr1bnr/2pq1ppp/3p4/4p3/4P3/8/1PPPBPPP/RNB2RK1 b - - 0 11").key(),
        Board::read_fen("Qnkr1bnr/2pq1pp1/3p4/4p2p/4P3/8/1PPPBPPP/RNB2RK1 w - h6 0 12").key(),
        Board::read_fen("Qnkr1bnr/2pq1pp1/B2p4/4p2p/4P3/8/1PPP1PPP/RNB2RK1 b - - 1 12").key(),
    ];
    assert_eq!(boards[0], board.key());

    for (idx, notation) in moves.iter().enumerate() {
        let mv = from_move_notation(&notation, &mut board).unwrap();
        board.make_move(&mv);
        // println!("{:?}. {:?}", idx, board.key());
        assert_eq!(boards[idx + 1], board.key());
    }
}

#[test]
fn square_names() {
    assert_eq!(sq_notation(0), "a1");
    assert_eq!(sq_notation(28), "e4");
    assert_eq!(sq_notation(63), "h8");
    assert_eq!(sq_notation(72), "a10");
}

#[test]
fn move_names() {
    assert_eq!(move_notation(12, 28, None), "e2e4");
    assert_eq!(move_notation(48, 56, Some(WHITE_QUEEN)), "a7a8Q");
    assert_eq!(move_notation(8, 0, Some(BLACK_KNIGHT)), "a2a1n");
}

#[test]
fn move_lists_stop_at_the_depth() {
    let moves = [
        Move { from: 12, to: 28, piece: WHITE_PAWN, flag: Flag::Quiet },
        Move { from: 52, to: 36, piece: WHITE_PAWN, flag: Flag::Quiet },
        Move { from: 6, to: 21, piece: WHITE_PAWN, flag: Flag::Quiet },
    ];
    assert_eq!(get_move_list(&moves, 2), " e2e4 e7e5");
    assert_eq!(get_move_list(&moves, 9), " e2e4 e7e5 g1f3");
    assert_eq!(get_move_list(&moves, 0), "");
    let pv = [Some(moves[0]), Some(moves[1]), None, Some(moves[2])];
    assert_eq!(get_pv_move_list(&pv, 5), " e2e4 e7e5");
    assert_eq!(get_pv_move_list(&pv, 1), " e2e4");
}

#[test]
fn notation_finds_generated_moves_only() {
    let mut board = Board::read_fen(FEN_START);
    let mv = from_move_notation("E2E4", &mut board).unwrap();
    assert_eq!((mv.from, mv.to), (12, 28));
    assert!(from_move_notation("e2e5", &mut board).is_none());
}

#[test]
fn notation_round_trip_of_generated_moves() {
    let fens = [
        "r3k2r/p1ppqpb1/bn2pnp1/3PN3/1p2P3/2N2Q1p/PPPBBPPP/R3K2R w KQkq - 0 1",
        "r3k2r/Pppp1ppp/1b3nbN/nP6/BBP1P3/q4N2/Pp1P2PP/R2Q1RK1 w kq - 0 1",
        "rnbq1k1r/pp1Pbppp/2p5/8/2B5/8/PPP1NnPP/RNBQK2R w KQ - 1 8",
    ];
    for fen in fens {
        let mut board = Board::read_fen(fen);
        let moves = fri_challenger::mv_gen::BoardGenMoveTrait::gen_moves(&mut board);
        for mv in moves.iter() {
            let text = move_notation(mv.from, mv.to, mv.flag.get_promo_piece());
            assert_eq!(from_move_notation(&text, &mut board), Some(*mv));
            assert_eq!(from_move_notation(&text.to_uppercase(), &mut board), Some(*mv));
        }
    }
}
