use treant_wasm::chomp::{table_side, Chomp};
use treant_wasm::gridlib::idx;
use treant_wasm::outcome::Outcome;

#[test]
fn eating_clears_lower_right_quadrant() {
    let mut g = Chomp::new(4, 4);
    g.make_move(&(idx(1, 1, 4) as u16));
    assert_eq!(g.board[idx(1, 1, 4)], -1);
    assert_eq!(g.board[idx(3, 3, 4)], -1);
    assert_eq!(g.board[idx(0, 0, 4)], 1, "poison untouched");
    assert_eq!(g.board[idx(0, 1, 4)], 1, "top row beyond col 0 untouched");
}

#[test]
fn eating_poison_ends_the_game() {
    let mut g = Chomp::new(3, 3);
    g.make_move(&(idx(0, 0, 3) as u16));
    assert!(g.term().is_some());
    assert_eq!(g.result_string(), "2");
}

#[test]
fn ai_avoids_instant_loss() {
    // Opening on the poison hands the game to the other side at once.
    let mut g = Chomp::new(table_side(3), table_side(3));
    assert!(g.apply_text("0"));
    assert_eq!(g.term(), Some(Outcome::Win));
    assert_eq!(g.result_string(), "2");
    assert_eq!(g.legal_moves_string(), "");
}

// Further cases.

#[test]
fn chomp_text_surface() {
    let mut g = Chomp::new(3, 2);
    assert_eq!(g.board_string(), "######");
    assert_eq!(g.legal_moves_string(), "0,1,2,3,4,5");
    assert!(!g.apply_text("6"));
    assert!(!g.apply_text("a"));
    assert!(g.apply_text("4"));
    assert_eq!(g.board_string(), "####  ");
    assert_eq!(g.current_player(), 1);
    assert!(!g.apply_text("5"), "an eaten cell cannot be picked");
    assert_eq!(g.result_string(), "");
    assert_eq!(table_side(1), 2);
    assert_eq!(table_side(9), 7);
}
