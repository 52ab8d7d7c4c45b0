use fri_challenger::board::Board;
use fri_challenger::evaluation::TraceEvalTrait;
use fri_challenger::piece::{BLACK, WHITE, WHITE_KNIGHT};

#[test]
fn trace_logs_and_adds_to_the_board() {
    let mut board = Board::initialize();
    board.trace(WHITE, Some(10), Some(WHITE_KNIGHT), (5, -3));
    board.trace(WHITE, Some(10), None, (2, 1));
    board.trace(BLACK, None, None, (7, 7));
    assert_eq!(board.eval.vec_test.len(), 3);
    assert_eq!(
        board.eval.vec_test[0],
        format!("Piece:{:?} ,Color: {:?}, Square: {:?}, Value Mg: {:?}, Value Eg: {:?}", Some(WHITE_KNIGHT), WHITE, Some(10usize), 5isize, -3isize)
    );
    assert_eq!(board.eval.mg_test[0][10], 7);
    assert_eq!(board.eval.eg_test[0][10], -2);
    assert_eq!(board.eval.mg_test[1].iter().sum::<isize>(), 0);
    board.reset_trace();
    assert!(board.eval.vec_test.is_empty());
    assert_eq!(board.eval.mg_test, [[0; 64]; 2]);
    assert_eq!(board.eval.eg_test, [[0; 64]; 2]);
}
