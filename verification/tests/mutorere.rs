use treant_wasm::mutorere::{parse_mt_move, MtMove, MuTorere};
use treant_wasm::outcome::Outcome;

#[test]
fn opening_moves_only_into_centre_when_next_to_enemy() {
    let g = MuTorere::new();
    let moves = g.gen();
    let to_centre: Vec<u16> = moves.iter().filter(|m| m.to == 0).map(|m| m.from).collect();
    assert!(to_centre.contains(&1) && to_centre.contains(&4));
    assert!(!to_centre.contains(&2) && !to_centre.contains(&3));
}

#[test]
fn sliding_updates_cells_and_turn() {
    let mut g = MuTorere::new();
    g.make_move(&MtMove { from: 4, to: 0 });
    assert_eq!(g.cells[0], 0);
    assert_eq!(g.cells[4], -1);
    assert_eq!(g.current, 1);
}

#[test]
fn mutorere_ai_plays() {
    // The opening offers moves, and any of them is accepted.
    let mut g = MuTorere::new();
    let m = g.legal_moves_string().split(',').next().unwrap().to_string();
    assert!(g.apply_text(&m));
}

// Further cases.

#[test]
fn mutorere_text_surface() {
    let mut g = MuTorere::new();
    assert_eq!(g.board_string(), " XXXXOOOO");
    assert_eq!(g.legal_moves_string(), "1-0,4-0");
    assert!(!g.apply_text("2-0"), "kewai: piece 2 has no enemy beside it");
    assert_eq!(parse_mt_move("4-0"), Some(MtMove { from: 4, to: 0 }));
    assert!(g.apply_text("4-0"));
    assert_eq!(g.board_string(), "XXXX OOOO");
    // O's only move slides point 5 into the empty point 4.
    assert_eq!(g.legal_moves_string(), "5-4");
    assert_eq!(g.result_string(), "");
}

#[test]
fn mutorere_stuck_side_loses() {
    let mut g = MuTorere::new();
    // O to move without a piece on the board.
    g.cells = [-1, 0, 0, 0, 0, 0, 0, 0, 0];
    g.current = 1;
    assert_eq!(g.term(), Some(Outcome::Loss));
    assert_eq!(g.result_string(), "1");
}
