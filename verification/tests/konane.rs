use treant_wasm::konane::{parse_k_move, KMove, Konane};
use treant_wasm::outcome::Outcome;

#[test]
fn opening_board_has_two_central_holes() {
    let g = Konane::new(6, 6);
    let empties = g.grid.iter().filter(|&&v| v == -1).count();
    assert_eq!(empties, 2);
    assert!(!g.gen().is_empty());
}

#[test]
fn jump_captures_the_middle_stone() {
    let mut g = Konane::new(6, 6);
    let m = g.gen()[0];
    let mid = (m.from as usize + m.to as usize) / 2;
    g.make_move(&m);
    assert_eq!(g.grid[m.to as usize], 0);
    assert_eq!(g.grid[m.from as usize], -1);
    assert_eq!(g.grid[mid], -1);
    assert_eq!(g.current, 1);
}

#[test]
fn konane_ai_plays() {
    // The opening offers jumps, and any of them is accepted.
    let mut g = Konane::new(6, 6);
    let m = g.legal_moves_string().split(',').next().unwrap().to_string();
    assert!(g.apply_text(&m));
}

// Further cases.

#[test]
fn konane_opening_text_and_loss() {
    let mut g = Konane::new(5, 1);
    // X O X O X with the centre cell and its left neighbour emptied.
    assert_eq!(g.board_string(), "X  OX");
    assert_eq!(g.legal_moves_string(), "4-2");
    assert!(!g.apply_text("0-2"));
    assert_eq!(parse_k_move("4-2"), Some(KMove { from: 4, to: 2 }));
    assert!(g.apply_text("4-2"));
    assert_eq!(g.board_string(), "X X  ");
    assert_eq!(g.current_player(), 1);
    assert_eq!(g.legal_moves_string(), "");
    assert_eq!(g.term(), Some(Outcome::Loss));
    assert_eq!(g.result_string(), "1");
}

#[test]
fn konane_stuck_side_loses() {
    let mut g = Konane::new(4, 1);
    g.grid = vec![0, -1, -1, 1];
    assert_eq!(g.term(), Some(Outcome::Loss));
    assert_eq!(g.result_string(), "2");
}
