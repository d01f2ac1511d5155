use treant_wasm::col::Col;
use treant_wasm::outcome::Outcome;

#[test]
fn col_empty_board_allows_every_cell() {
    let g = Col::new(4, 4, false);
    assert_eq!(g.gen().len(), 16);
}

#[test]
fn cannot_colour_next_to_own_colour() {
    let mut g = Col::new(3, 3, false);
    g.grid[4] = 0;
    g.current = 0;
    for n in [1usize, 3, 5, 7] {
        assert!(!g.is_legal(n));
    }
    assert!(g.is_legal(0));
}

#[test]
fn opponent_may_colour_adjacent() {
    let mut g = Col::new(3, 3, false);
    g.grid[4] = 0;
    g.current = 1;
    assert!(g.is_legal(1));
    assert!(g.is_legal(3));
}

#[test]
fn col_ai_plays() {
    // The opening position offers every cell and is not over.
    let g = Col::new(5, 5, false);
    assert!(g.term().is_none());
    assert_eq!(g.legal_moves_string().split(',').count(), 25);
}

#[test]
fn snort_cannot_colour_next_to_enemy_but_own_is_fine() {
    let mut g = Col::new(3, 3, true);
    assert!(g.apply_text("4"));
    assert!(!g.apply_text("1"));
    assert!(g.apply_text("0"));
    assert!(g.apply_text("5"));
}

// Further cases.

#[test]
fn col_text_surface_and_loss() {
    let mut g = Col::new(2, 1, false);
    assert_eq!(g.board_string(), "  ");
    assert_eq!(g.legal_moves_string(), "0,1");
    assert_eq!(g.neighbors(0), vec![1]);
    assert!(!g.apply_text("x"));
    assert!(!g.apply_text("2"));
    assert!(g.apply_text("+0"));
    assert_eq!(g.board_string(), "X ");
    assert_eq!(g.current_player(), 1);
    assert!(g.apply_text("1"));
    assert_eq!(g.board_string(), "XO");
    // Player 0 is stuck and loses: player 2 wins.
    assert_eq!(g.term(), Some(Outcome::Loss));
    assert_eq!(g.result_string(), "2");
    assert_eq!(g.legal_moves_string(), "");
}

#[test]
fn col_rejected_move_leaves_game_unchanged() {
    let mut g = Col::new(3, 3, false);
    assert!(g.apply_text("4"));
    assert!(g.apply_text("0"));
    // X may not touch its own centre cell.
    assert!(!g.apply_text("1"));
    assert_eq!(g.board_string(), "O   X    ");
    assert_eq!(g.current_player(), 0);
}
