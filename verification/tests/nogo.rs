use treant_wasm::nogo::NoGo;
use treant_wasm::outcome::Outcome;

#[test]
fn nogo_empty_board_allows_every_cell() {
    let g = NoGo::new(4, 4);
    assert_eq!(g.gen().len(), 16);
}

#[test]
fn capturing_move_is_illegal() {
    let mut g = NoGo::new(3, 3);
    g.grid[4] = 1;
    g.grid[1] = 0;
    g.grid[3] = 0;
    g.grid[5] = 0;
    g.current = 0;
    assert!(!g.is_legal(7));
    assert!(g.is_legal(0));
}

#[test]
fn suicide_move_is_illegal() {
    let mut g = NoGo::new(3, 3);
    g.grid[1] = 1;
    g.grid[3] = 1;
    g.grid[5] = 1;
    g.grid[7] = 1;
    g.current = 0;
    assert!(!g.is_legal(4));
}

#[test]
fn nogo_ai_plays() {
    // The opening offers every cell, and any of them is accepted.
    let mut g = NoGo::new(5, 5);
    assert_eq!(g.legal_moves_string().split(',').count(), 25);
    assert!(g.apply_text("12"));
}

// Further cases.

#[test]
fn nogo_text_surface_and_loss() {
    let mut g = NoGo::new(2, 1);
    assert_eq!(g.board_string(), "  ");
    assert!(!g.apply_text("2"));
    assert!(g.apply_text("0"));
    assert_eq!(g.board_string(), "X ");
    // O on cell 1 would take X's last liberty (and have none itself).
    assert_eq!(g.legal_moves_string(), "");
    assert_eq!(g.term(), Some(Outcome::Loss));
    assert_eq!(g.result_string(), "1");
    assert_eq!(g.current_player(), 1);
}
