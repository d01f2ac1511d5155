use treant_wasm::domineering::{parse_dom_move, DomMove, Domineering};
use treant_wasm::outcome::Outcome;

#[test]
fn vertical_player_only_makes_vertical_dominoes() {
    let g = Domineering::new(2, 2, false);
    let mut moves = g.gen();
    moves.sort_by_key(|m| (m.from, m.to));
    assert_eq!(moves, vec![DomMove { from: 0, to: 2 }, DomMove { from: 1, to: 3 }]);
}

#[test]
fn placing_fills_both_cells_and_swaps_player() {
    let mut g = Domineering::new(3, 3, false);
    g.make_move(&DomMove { from: 0, to: 3 });
    assert_eq!(g.grid[0], 0);
    assert_eq!(g.grid[3], 0);
    assert_eq!(g.current, 1);
    assert!(g.gen().iter().any(|m| m.from == 1 && m.to == 2));
    assert!(!g.gen().iter().any(|m| m.from == 0));
}

#[test]
fn full_blocked_board_is_a_loss_for_mover() {
    let g = Domineering::new(2, 1, false);
    assert!(g.gen().is_empty());
    assert_eq!(g.term(), Some(Outcome::Loss));
}

#[test]
fn domineering_ai_plays() {
    // The opening of a 4x4 board offers the vertical player twelve placements.
    let g = Domineering::new(4, 4, false);
    assert_eq!(g.gen().len(), 12);
}

#[test]
fn cram_lets_either_player_place_both_orientations() {
    let g = Domineering::new(4, 4, true);
    let moves = g.legal_moves_string();
    assert_eq!(moves.split(',').count(), 24);
}

// Further cases.

#[test]
fn domineering_text_surface() {
    let mut g = Domineering::new(2, 2, false);
    assert_eq!(g.legal_moves_string(), "0-2,1-3");
    assert_eq!(parse_dom_move("0-2"), Some(DomMove { from: 0, to: 2 }));
    assert_eq!(parse_dom_move("0-2-3"), None);
    assert_eq!(parse_dom_move("x-2"), None);
    assert!(!g.apply_text("0-1"), "horizontal is not the first player's");
    assert!(g.apply_text("0-2"));
    assert_eq!(g.board_string(), "X X ");
    // The horizontal player has no room left in column 1 alone: it cannot move.
    assert!(g.gen().is_empty());
    assert_eq!(g.result_string(), "1");
}
