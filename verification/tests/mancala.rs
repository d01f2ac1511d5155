use treant_wasm::mancala::{eval_for, settings, Mancala, MancalaMove, MAX_RING};
use treant_wasm::outcome::Outcome;

#[test]
fn initial_board_two_player() {
    let g = Mancala::new(6, 4, 2);
    assert_eq!(g.ring_len(), 14);
    for j in 0..6 {
        assert_eq!(g.board[j], 4);
        assert_eq!(g.board[7 + j], 4);
    }
    assert_eq!(g.board[6], 0);
    assert_eq!(g.board[13], 0);
    assert_eq!(g.current, 0);
}

#[test]
fn basic_sow_no_bonus_no_capture() {
    let mut g = Mancala::new(6, 4, 2);
    g.make_move(&MancalaMove(2));
    assert_eq!(g.board[2], 0);
    assert_eq!(g.board[3], 5);
    assert_eq!(g.board[4], 5);
    assert_eq!(g.board[5], 5);
    assert_eq!(g.board[6], 1);
    assert_eq!(g.current, 0);
}

#[test]
fn sow_past_own_store_skips_opponent_store() {
    let mut g = Mancala::new(6, 4, 2);
    g.board = [0; MAX_RING];
    g.board[0] = 12;
    g.make_move(&MancalaMove(0));
    for i in 1..=6 {
        assert_eq!(g.board[i], 1);
    }
    for i in 7..=12 {
        assert_eq!(g.board[i], 1);
    }
    assert_eq!(g.board[13], 0);
}

#[test]
fn sow_skips_opponent_store_on_long_throw() {
    let mut g = Mancala::new(6, 4, 2);
    g.board = [0; MAX_RING];
    g.board[0] = 14;
    g.make_move(&MancalaMove(0));
    assert_eq!(g.board[0], 1);
    assert_eq!(g.board[1], 2);
    for i in 2..=12 {
        assert_eq!(g.board[i], 1);
    }
    assert_eq!(g.board[6], 1);
    assert_eq!(g.board[13], 0);
}

#[test]
fn capture_two_player() {
    let mut g = Mancala::new(6, 4, 2);
    g.board = [0; MAX_RING];
    g.board[1] = 1;
    g.board[10] = 3;
    g.make_move(&MancalaMove(1));
    assert_eq!(g.board[1], 0);
    assert_eq!(g.board[2], 0);
    assert_eq!(g.board[10], 0);
    assert_eq!(g.board[6], 4);
    assert_eq!(g.current, 1);
}

fn fill_row(g: &mut Mancala, player: usize) {
    let start = g.player_pit_start(player);
    for i in start..start + g.pits {
        g.board[i] = 1;
    }
}

#[test]
fn no_capture_if_opposite_empty() {
    let mut g = Mancala::new(6, 4, 2);
    g.board = [0; MAX_RING];
    g.board[1] = 1;
    fill_row(&mut g, 1);
    g.board[10] = 0;
    g.make_move(&MancalaMove(1));
    assert_eq!(g.board[2], 1);
    assert_eq!(g.board[6], 0);
    assert_eq!(g.board[10], 0);
}

#[test]
fn no_capture_if_own_pit_already_had_stones() {
    let mut g = Mancala::new(6, 4, 2);
    g.board = [0; MAX_RING];
    g.board[1] = 1;
    g.board[2] = 3;
    g.board[10] = 5;
    g.make_move(&MancalaMove(1));
    assert_eq!(g.board[2], 4);
    assert_eq!(g.board[10], 5);
    assert_eq!(g.board[6], 0);
}

#[test]
fn game_ends_when_row_empty_sweeps_remaining() {
    let mut g = Mancala::new(6, 4, 2);
    g.board = [0; MAX_RING];
    g.board[5] = 1;
    for i in 7..=12 {
        g.board[i] = 4;
    }
    g.make_move(&MancalaMove(5));
    for i in 0..6 {
        assert_eq!(g.board[i], 0);
    }
    for i in 7..=12 {
        assert_eq!(g.board[i], 0);
    }
    assert_eq!(g.board[6], 1);
    assert_eq!(g.board[13], 24);
    assert!(g.is_terminal());
    assert_eq!(g.winner(), Some(1));
}

#[test]
fn four_player_initial_board() {
    let g = Mancala::new(4, 3, 4);
    assert_eq!(g.ring_len(), 20);
    for player in 0..4 {
        for j in 0..4 {
            assert_eq!(g.board[player * 5 + j], 3);
        }
        assert_eq!(g.board[player * 5 + 4], 0);
    }
}

#[test]
fn four_player_skips_other_three_stores() {
    let mut g = Mancala::new(3, 0, 4);
    g.board = [0; MAX_RING];
    g.board[0] = 18;
    for p in 1..4 {
        for j in 0..3 {
            g.board[p * 4 + j] = 1;
        }
    }
    g.make_move(&MancalaMove(0));
    assert_eq!(g.board[7], 0);
    assert_eq!(g.board[11], 0);
    assert_eq!(g.board[15], 0);
    assert_eq!(g.board[3], 2);
    assert_eq!(g.current, 1);
}

#[test]
fn four_player_capture_geometry() {
    let mut g = Mancala::new(4, 0, 4);
    g.board = [0; MAX_RING];
    g.board[2] = 1;
    g.board[13] = 5;
    for p in [1, 3] {
        for j in 0..4 {
            g.board[p * 5 + j] = 1;
        }
    }
    g.make_move(&MancalaMove(2));
    assert_eq!(g.board[3], 0);
    assert_eq!(g.board[13], 0);
    assert_eq!(g.board[4], 6);
}

#[test]
fn four_player_no_capture_for_p0_p1_pairs() {
    let mut g = Mancala::new(4, 0, 4);
    g.board = [0; MAX_RING];
    g.board[0] = 1;
    g.board[2] = 1;
    g.board[7] = 5;
    g.board[18] = 5;
    g.board[10] = 1;
    g.board[11] = 1;
    g.board[12] = 1;
    g.make_move(&MancalaMove(2));
    assert_eq!(g.board[3], 1);
    assert_eq!(g.board[4], 0);
    assert_eq!(g.board[7], 5);
    assert_eq!(g.board[18], 5);
}

#[test]
fn extra_turn_chains() {
    let mut g = Mancala::new(6, 4, 2);
    g.make_move(&MancalaMove(2));
    assert_eq!(g.current, 0);
    g.make_move(&MancalaMove(5));
    assert_eq!(g.current, 1);
}

#[test]
fn legal_moves_filter_empty_pits() {
    let mut g = Mancala::new(6, 4, 2);
    g.board = [0; MAX_RING];
    g.board[1] = 3;
    g.board[4] = 1;
    fill_row(&mut g, 1);
    let moves = g.available_moves();
    let indices: Vec<u8> = moves.iter().map(|m| m.0).collect();
    assert_eq!(indices, vec![1, 4]);
}

// Further cases.

#[test]
fn mancala_text_surface_and_values() {
    assert_eq!(settings(1, 9, 3), (2, 8, 2));
    assert_eq!(settings(9, 256, 4), (8, 1, 4));
    let mut g = Mancala::new(2, 1, 2);
    assert_eq!(g.board_string(), "1,1,0,1,1,0");
    assert_eq!(g.scores_string(), "0,0");
    assert_eq!(g.legal_moves_string(), "0,1");
    assert_eq!(g.result_string(), "");
    assert_eq!(g.terminal_value(), None);
    let e = g.compute();
    assert_eq!(e.scores, [2, 2, 0, 0]);
    assert_eq!(eval_for(&e, 0), 0);
    assert!(!g.apply_text("2"));
    assert!(!g.apply_text("x"));
    assert!(g.apply_text("1"));
    // One stone into the own store: another turn.
    assert_eq!(g.board_string(), "1,0,1,1,1,0");
    assert_eq!(g.current_player(), 0);
    assert_eq!(g.score(0), 1);
    assert!(g.apply_text("0"));
    // The last stone lands in the own empty pit 1 across from pit 3: capture, and
    // P0's row is then empty, so everything is swept.
    assert_eq!(g.board_string(), "0,0,3,0,0,1");
    assert_eq!(g.current_player(), 1);
    assert!(g.is_terminal());
    assert_eq!(g.result_string(), "P1");
    assert_eq!(g.terminal_value(), Some(Outcome::Loss));
    assert_eq!(g.scores_string(), "3,1");
}
