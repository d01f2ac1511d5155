use treant_wasm::outcome::Outcome;
use treant_wasm::oware::{eval_for, settings, Oware, OwareMove, MAX_RING, PLY_CAP};

#[test]
fn initial_board() {
    let g = Oware::new(6, 4);
    assert_eq!(g.ring_len(), 12);
    for i in 0..12 {
        assert_eq!(g.board[i], 4);
    }
    assert_eq!(g.score, [0, 0]);
    assert_eq!(g.current, 0);
    assert_eq!(g.total_seeds(), 48);
}

#[test]
fn basic_sow_counterclockwise() {
    let mut g = Oware::new(6, 4);
    g.make_move(&OwareMove(0));
    assert_eq!(g.board[0], 0);
    assert_eq!(g.board[1], 5);
    assert_eq!(g.board[2], 5);
    assert_eq!(g.board[3], 5);
    assert_eq!(g.board[4], 5);
    assert_eq!(g.board[5], 4);
    assert_eq!(g.current, 1);
}

#[test]
fn wrap_skips_origin_on_full_lap() {
    let mut g = Oware::new(6, 4);
    g.board = [0; MAX_RING];
    g.board[0] = 12;
    g.make_move(&OwareMove(0));
    assert_eq!(g.board[0], 0);
    assert_eq!(g.board[1], 2);
    for i in 2..12 {
        assert_eq!(g.board[i], 1);
    }
}

#[test]
fn capture_single_two() {
    let mut g = Oware::new(6, 4);
    g.board = [0; MAX_RING];
    g.board[5] = 1;
    g.board[6] = 1;
    g.board[7] = 4;
    g.board[8] = 4;
    g.make_move(&OwareMove(5));
    assert_eq!(g.board[6], 0);
    assert_eq!(g.score[0], 2);
    assert_eq!(g.current, 1);
}

#[test]
fn capture_chain_of_twos_and_threes_stops() {
    let mut g = Oware::new(6, 4);
    g.board = [0; MAX_RING];
    g.board[5] = 4;
    g.board[6] = 3;
    g.board[7] = 1;
    g.board[8] = 1;
    g.board[9] = 2;
    g.board[10] = 4;
    g.board[11] = 4;
    g.make_move(&OwareMove(5));
    assert_eq!(g.board[9], 0);
    assert_eq!(g.board[8], 0);
    assert_eq!(g.board[7], 0);
    assert_eq!(g.board[6], 4);
    assert_eq!(g.score[0], 3 + 2 + 2);
}

#[test]
fn grand_slam_captures_nothing() {
    let mut g = Oware::new(6, 4);
    g.board = [0; MAX_RING];
    g.board[5] = 1;
    g.board[6] = 1;
    g.board[0] = 4;
    g.make_move(&OwareMove(5));
    assert_eq!(g.board[6], 2);
    assert_eq!(g.score[0], 0);
}

#[test]
fn starvation_must_feed_when_possible() {
    let mut g = Oware::new(6, 4);
    g.board = [0; MAX_RING];
    g.board[0] = 1;
    g.board[5] = 1;
    assert_eq!(g.current, 0);
    let moves: Vec<u8> = g.available_moves().iter().map(|m| m.0).collect();
    assert_eq!(moves, vec![5]);
}

#[test]
fn starvation_no_feed_ends_game_and_sweeps() {
    let mut g = Oware::new(6, 4);
    g.board = [0; MAX_RING];
    g.current = 1;
    g.board[6] = 1;
    g.make_move(&OwareMove(0));
    assert!(g.is_terminal());
    assert_eq!(g.score[1], 1);
    assert_eq!(g.score[0], 0);
}

#[test]
fn no_feeding_move_yields_no_legal_moves() {
    let mut g = Oware::new(6, 4);
    g.board = [0; MAX_RING];
    g.board[0] = 1;
    assert!(g.available_moves().is_empty());
}

#[test]
fn terminal_verdict_sign() {
    let mut g = Oware::new(6, 4);
    g.board = [0; MAX_RING];
    g.score = [20, 5];
    g.finished = true;
    g.current = 1;
    assert_eq!(g.terminal_value(), Some(Outcome::Loss));
    g.current = 0;
    assert_eq!(g.terminal_value(), Some(Outcome::Win));
    g.score = [12, 12];
    assert_eq!(g.terminal_value(), Some(Outcome::Draw));
}

#[test]
fn majority_win_ends_game() {
    let mut g = Oware::new(6, 4);
    g.board = [0; MAX_RING];
    g.score = [23, 0];
    g.board[5] = 1;
    g.board[6] = 1;
    g.board[7] = 4;
    g.make_move(&OwareMove(5));
    assert_eq!(g.score[0], 25);
    assert!(g.is_terminal());
    assert_eq!(g.winner(), Some(0));
}

#[test]
fn ply_cap_adjudicates() {
    let mut g = Oware::new(6, 4);
    g.ply = PLY_CAP - 1;
    let before: u16 = g.board[0..6].iter().sum();
    g.make_move(&OwareMove(0));
    assert!(g.is_terminal());
    assert_eq!(g.score[0] + g.score[1], 48);
    let _ = before;
}

#[test]
fn ai_plays_a_full_game() {
    // Self-play by the first legal house reaches the end of the game.
    let mut g = Oware::new(6, 4);
    let mut moves = 0;
    while !g.is_terminal() && moves < 1000 {
        let m = g.available_moves()[0];
        g.make_move(&m);
        moves += 1;
    }
    assert!(g.is_terminal());
    assert_eq!(g.score[0] + g.score[1] + g.board.iter().sum::<u16>(), 48);
}

#[test]
fn seeds_are_conserved_over_a_game() {
    let mut g = Oware::new(4, 3);
    let mut k = 0usize;
    while !g.is_terminal() {
        let moves = g.available_moves();
        let m = moves[k % moves.len()];
        g.make_move(&m);
        k += 7;
        let on_board: u16 = g.board.iter().sum();
        assert_eq!(on_board + g.score[0] + g.score[1], 24);
    }
}

#[test]
fn capture_never_empties_the_opponent_row() {
    // The last seed makes house 6 hold 2 and house 7 already holds 2: taking both
    // would empty the opponent's row, so nothing is taken.
    let mut g = Oware::new(6, 4);
    g.board = [0; MAX_RING];
    g.board[5] = 2;
    g.board[6] = 2;
    g.board[7] = 1;
    g.board[0] = 3;
    g.make_move(&OwareMove(5));
    assert_eq!(g.board[6], 3);
    assert_eq!(g.board[7], 2);
    assert_eq!(g.score[0], 0);
}

#[test]
fn evaluation_counts_piles_twice() {
    let mut g = Oware::new(6, 4);
    g.score = [3, 1];
    let e = g.compute();
    assert_eq!(e.scores, [3 * 2 + 24, 1 * 2 + 24]);
    assert_eq!(eval_for(&e, 0), 4);
    assert_eq!(eval_for(&e, 1), -4);
    g.board[0] = 0;
    assert_eq!(g.compute().scores[0], 6 + 20);
}

#[test]
fn oware_settings_clamp_the_table() {
    assert_eq!(settings(2, 9), (4, 6));
    assert_eq!(settings(6, 4), (6, 4));
    assert_eq!(settings(12, 1), (8, 3));
    assert_eq!(settings(5, 65536 + 5), (5, 5));
}

#[test]
fn oware_text_surface() {
    let mut g = Oware::new(4, 3);
    assert_eq!(g.board_string(), "3,3,3,3,3,3,3,3|0,0");
    assert_eq!(g.scores_string(), "0,0");
    assert_eq!(g.legal_moves_string(), "0,1,2,3");
    assert_eq!(g.result_string(), "");
    assert!(!g.apply_text("4"));
    assert!(!g.apply_text("x"));
    assert!(g.apply_text("1"));
    assert_eq!(g.board_string(), "3,0,4,4,4,3,3,3|0,0");
    assert_eq!(g.current, 1);
    g.finished = true;
    g.score = [5, 2];
    assert_eq!(g.result_string(), "1");
    g.score = [2, 2];
    assert_eq!(g.result_string(), "Draw");
    assert!(!g.apply_text("0"));
}
