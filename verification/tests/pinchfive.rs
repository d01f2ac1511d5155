use treant_wasm::gridlib::idx;
use treant_wasm::outcome::Outcome;
use treant_wasm::pinchfive::{eval_for, settings, PinchFive};

#[test]
fn horizontal_capture_scores_a_pair() {
    let mut g = PinchFive::new(9, 9, 5, 2);
    g.board[idx(2, 0, 9)] = 0;
    g.board[idx(2, 1, 9)] = 1;
    g.board[idx(2, 2, 9)] = 1;
    g.current = 0;
    g.make_move(&(idx(2, 3, 9) as u16));
    assert_eq!(g.board[idx(2, 1, 9)], -1, "O pair removed");
    assert_eq!(g.board[idx(2, 2, 9)], -1);
    assert_eq!(g.captures[0], 1, "X scored one pair");
}

#[test]
fn placing_into_a_bracket_is_safe() {
    let mut g = PinchFive::new(9, 9, 5, 2);
    g.board[idx(2, 0, 9)] = 0;
    g.board[idx(2, 3, 9)] = 0;
    g.board[idx(2, 1, 9)] = 1;
    g.current = 1;
    g.make_move(&(idx(2, 2, 9) as u16));
    assert_eq!(g.board[idx(2, 1, 9)], 1, "self-suicide bracket is safe");
    assert_eq!(g.board[idx(2, 2, 9)], 1);
    assert_eq!(g.captures[0], 0);
}

#[test]
fn exactly_three_enemy_stones_are_not_captured() {
    let mut g = PinchFive::new(9, 9, 5, 2);
    g.board[idx(4, 0, 9)] = 0;
    g.board[idx(4, 1, 9)] = 1;
    g.board[idx(4, 2, 9)] = 1;
    g.board[idx(4, 3, 9)] = 1;
    g.current = 0;
    g.make_move(&(idx(4, 4, 9) as u16));
    assert_eq!(g.captures[0], 0, "three-in-a-line is immune");
    assert_eq!(g.board[idx(4, 1, 9)], 1);
}

#[test]
fn five_in_a_row_is_a_loss_for_the_mover() {
    let mut g = PinchFive::new(9, 9, 5, 2);
    for c in 0..4 {
        g.board[idx(0, c, 9)] = 0;
    }
    g.current = 0;
    g.make_move(&(idx(0, 4, 9) as u16));
    assert_eq!(g.winner, Some(0));
    assert_eq!(g.term(), Some(Outcome::Loss));
}

#[test]
fn reaching_pair_target_wins() {
    let mut g = PinchFive::new(9, 9, 3, 2);
    g.captures[0] = 2;
    g.board[idx(6, 0, 9)] = 0;
    g.board[idx(6, 1, 9)] = 1;
    g.board[idx(6, 2, 9)] = 1;
    g.current = 0;
    g.make_move(&(idx(6, 3, 9) as u16));
    assert_eq!(g.captures[0], 3);
    assert_eq!(g.winner, Some(0));
}

#[test]
fn ply_cap_forces_draw() {
    let mut g = PinchFive::new(9, 9, 5, 2);
    g.plies = g.ply_cap;
    assert_eq!(g.term(), Some(Outcome::Draw));
}

#[test]
fn pinchfive_ai_plays() {
    let (c, r, p, n) = settings(9, 9, 5, 2);
    let mut g = PinchFive::new(c, r, p, n);
    assert!(g.board_string().contains('|'));
    assert_eq!(g.capture_counts(), "0,0");
    assert!(g.apply_text("40"));
}

// Further cases.

#[test]
fn pinchfive_text_and_eval() {
    assert_eq!(settings(1, 40, 70000, 7), (9, 19, 8, 4));
    let mut g = PinchFive::new(9, 9, 5, 2);
    assert_eq!(g.ply_cap, 324);
    assert_eq!(g.result_string(), "");
    assert!(!g.apply_text("81"));
    assert!(g.apply_text("0"));
    assert_eq!(&g.board_string()[0..2], "X ");
    assert!(g.board_string().ends_with("|0,0"));
    assert!(!g.apply_text("0"));
    assert_eq!(g.current_player(), 1);
    let e = g.eval_state();
    assert_eq!(e.cap, vec![0, 0]);
    assert!(e.lines[0] > 0);
    assert_eq!(e.lines[1], 0);
    assert_eq!(eval_for(&e, 0), e.lines[0]);
    assert_eq!(eval_for(&e, 1), -e.lines[0]);
    g.plies = g.ply_cap;
    assert_eq!(g.result_string(), "Draw");
    assert_eq!(g.legal_moves_string(), "");
}
