use treant_wasm::gridlib::idx;
use treant_wasm::hex::{eval_for, settings, Hex, SWAP};
use treant_wasm::outcome::Outcome;

/// A game as the front end creates it.
fn hex_table(n: u32, pie: u32) -> Hex {
    let (n, pie) = settings(n, pie);
    let mut g = Hex::new(n);
    g.pie = pie;
    g
}

fn hex_first_move(g: &Hex) -> Option<String> {
    g.legal_moves_string().split(',').next().filter(|m| !m.is_empty()).map(|m| m.to_string())
}

#[test]
fn vertical_chain_connects_player_0() {
    let mut g = Hex::new(5);
    for r in 0..5 {
        g.board[idx(r, 2, 5)] = 0;
    }
    assert_eq!(g.dist(0), 0);
    g.current = 1;
    assert_eq!(g.term(), Some(Outcome::Loss));
}

#[test]
fn empty_board_not_terminal() {
    let g = Hex::new(5);
    assert!(g.term().is_none());
    assert!(g.dist(0) > 0 && g.dist(1) > 0);
}

#[test]
fn ai_plays_and_no_draw_pressure() {
    let g = hex_table(5, 0);
    assert!(hex_first_move(&g).is_some());
}

#[test]
fn winning_chain_is_the_component_touching_both_edges() {
    let mut g = Hex::new(5);
    let chain: Vec<usize> = (0..5).map(|r| idx(r, 2, 5)).collect();
    for &i in &chain {
        g.board[i] = 0;
    }
    g.board[idx(0, 0, 5)] = 0;
    assert_eq!(g.dist(0), 0);
    let mut got = g.winning_chain();
    got.sort_unstable();
    let mut want = chain.clone();
    want.sort_unstable();
    assert_eq!(got, want);
    assert!(got.iter().all(|&i| g.board[i] == 0));
    assert!(got.iter().any(|&i| i / 5 == 0));
    assert!(got.iter().any(|&i| i / 5 == 4));
}

#[test]
fn winning_chain_for_player_1_spans_left_to_right() {
    let mut g = Hex::new(5);
    let chain: Vec<usize> = (0..5).map(|c| idx(2, c, 5)).collect();
    for &i in &chain {
        g.board[i] = 1;
    }
    assert_eq!(g.dist(1), 0);
    let mut got = g.winning_chain();
    got.sort_unstable();
    let mut want = chain.clone();
    want.sort_unstable();
    assert_eq!(got, want);
    assert!(got.iter().all(|&i| g.board[i] == 1));
    assert!(got.iter().any(|&i| i % 5 == 0));
    assert!(got.iter().any(|&i| i % 5 == 4));
}

#[test]
fn pie_swap_mirrors_and_recolors_the_first_stone() {
    let mut g = hex_table(7, 1);
    assert!(g.apply_text("9"));
    assert!(g.legal_moves_string().split(',').any(|m| m == "swap"));
    assert!(g.apply_text("swap"));
    let b = g.board_string();
    assert_eq!(b.chars().nth(9), Some(' '));
    assert_eq!(b.chars().nth(15), Some('O'));
    assert_eq!(g.current_player(), 0);
}

#[test]
fn hex_decline_swap_plays_normally() {
    let mut g = hex_table(5, 1);
    assert!(g.apply_text("12"));
    assert!(g.legal_moves_string().split(',').any(|m| m == "swap"));
    assert!(g.apply_text("6"));
    assert!(!g.legal_moves_string().split(',').any(|m| m == "swap"));
    assert_eq!(g.current_player(), 0);
    assert!(!g.is_terminal());
}

#[test]
fn hex_no_swap_when_pie_disabled() {
    let mut g = hex_table(5, 0);
    assert!(g.apply_text("12"));
    assert!(!g.legal_moves_string().split(',').any(|m| m == "swap"));
    assert!(!g.apply_text("swap"));
}

#[test]
fn swapped_stone_can_complete_a_win() {
    let mut g = Hex::new(5);
    g.pie = true;
    g.make_move(&7);
    assert_eq!(g.board[7], 0);
    g.make_move(&SWAP);
    assert_eq!(g.board[7], -1);
    assert_eq!(g.board[idx(2, 1, 5)], 1);
    assert_eq!(g.current, 0);
    for c in [0usize, 2, 3, 4] {
        g.board[idx(2, c, 5)] = 1;
    }
    assert_eq!(g.dist(1), 0);
    let cells = g.winning_chain();
    assert!(cells.contains(&idx(2, 1, 5)));
    assert_eq!(cells.len(), 5);
}

#[test]
fn hex_full_game_after_swap_terminates() {
    let mut g = hex_table(5, 1);
    assert!(g.apply_text("7"));
    assert!(g.apply_text("swap"));
    for _ in 0..80 {
        if g.is_terminal() {
            break;
        }
        match hex_first_move(&g) {
            Some(mv) => assert!(g.apply_text(&mv), "unplayable move: {mv}"),
            None => break,
        }
    }
    assert!(g.is_terminal());
    assert!(!g.result_string().is_empty());
}

#[test]
fn hex_winning_cells_empty_mid_game() {
    let mut g = hex_table(5, 0);
    assert_eq!(g.winning_cells_string(), "", "empty board has no chain");
    assert!(g.apply_text("12"));
    assert_eq!(g.winning_cells_string(), "");
}

#[test]
fn completion_distance_counts_empty_cells_around_walls() {
    let mut g = Hex::new(4);
    assert_eq!(g.dist(0), 4);
    assert_eq!(g.dist(1), 4);
    // Two X stones in column 1 cut X's distance to two; O must go around them.
    g.board[idx(1, 1, 4)] = 0;
    g.board[idx(2, 1, 4)] = 0;
    assert_eq!(g.dist(0), 2);
    assert_eq!(g.dist(1), 4);
    assert_eq!(g.evaluate(), 2);
    assert_eq!(eval_for(g.evaluate(), 1), -2);
    // A full wall of X down column 2 joins X's sides and leaves O no way through.
    for r in 0..4 {
        g.board[idx(r, 2, 4)] = 0;
    }
    assert_eq!(g.dist(0), 0);
    assert_eq!(g.dist(1), i32::MAX);
}

#[test]
fn hex_settings_clamp_the_table() {
    assert_eq!(settings(2, 0), (4, false));
    assert_eq!(settings(7, 3), (7, true));
    assert_eq!(settings(20, 1), (11, true));
}
