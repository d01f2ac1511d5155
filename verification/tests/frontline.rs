use treant_wasm::frontline::{parse_bt_move, table_side, BtMove, Frontline};
use treant_wasm::gridlib::idx;
use treant_wasm::outcome::Outcome;

#[test]
fn opening_has_forward_and_diagonal_moves() {
    let g = Frontline::new(table_side(6), table_side(6));
    let moves = g.legal_moves_string();
    assert!(!moves.is_empty());
    assert!(moves.split(',').count() >= 6);
}

#[test]
fn reaching_far_row_wins() {
    let mut g = Frontline::new(6, 6);
    g.board = vec![-1; 36];
    g.board[idx(1, 2, 6)] = 0;
    g.board[idx(5, 0, 6)] = 1;
    g.current = 0;
    g.make_move(&BtMove { from: idx(1, 2, 6) as u16, to: idx(0, 2, 6) as u16 });
    assert_eq!(g.term(), Some(Outcome::Loss));
    assert_eq!(g.winning_cell(), Some(idx(0, 2, 6)));
}

#[test]
fn winning_cell_none_mid_game_and_on_elimination() {
    let g = Frontline::new(6, 6);
    assert_eq!(g.winning_cell(), None, "opening has no winner");
    let mut e = Frontline::new(6, 6);
    e.board = vec![-1; 36];
    e.board[idx(3, 3, 6)] = 0;
    e.current = 1;
    assert!(e.term().is_some());
    assert_eq!(e.winning_cell(), None);
}

#[test]
fn frontline_ai_plays() {
    // Any offered move is accepted from the opening.
    let mut g = Frontline::new(6, 6);
    let m = g.legal_moves_string().split(',').next().unwrap().to_string();
    assert!(g.apply_text(&m));
}

// Further cases.

#[test]
fn frontline_opening_details() {
    let g = Frontline::new(4, 4);
    assert_eq!(g.board_string(), "OOOOOOOOXXXXXXXX");
    assert_eq!(g.count(0), 8);
    assert_eq!(g.count(1), 8);
    // X pawns on row 2 step up to row 1 (held by O): only diagonal captures.
    assert_eq!(g.legal_moves_string(), "8-5,9-4,9-6,10-5,10-7,11-6");
    assert_eq!(g.eval0(), 0);
    assert_eq!(g.eval_for(1), 0);
    assert_eq!(table_side(2), 4);
    assert_eq!(table_side(20), 10);
}

#[test]
fn frontline_text_and_capture() {
    let mut g = Frontline::new(4, 4);
    assert!(!g.apply_text("8-4"), "straight onto an enemy pawn is not a move");
    assert!(!g.apply_text("x"));
    assert!(g.apply_text("8-5"));
    assert_eq!(g.board_string(), "OOOOOXOO XXXXXXX");
    assert_eq!(g.current_player(), 1);
    assert_eq!(parse_bt_move("3-7"), Some(BtMove { from: 3, to: 7 }));
    assert_eq!(parse_bt_move("3-7-1"), None);
    assert_eq!(g.result_string(), "");
}
