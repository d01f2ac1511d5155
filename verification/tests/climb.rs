use treant_wasm::climb::{col_index, dice_outcomes, multiplicity, parse_pair, Climb, ClimbMove, Phase, TURN_CAP};
use rand::rngs::SmallRng;
use rand::{Rng, SeedableRng};

fn set_dice(g: &mut Climb, d: [u8; 4]) {
    g.make_move(&ClimbMove::Roll);
    g.make_move(&ClimbMove::Dice(d[0], d[1], d[2], d[3]));
}

#[test]
fn chance_weights_sum_to_one_over_1296() {
    let mut g = Climb::new(2, 3);
    g.make_move(&ClimbMove::Roll);
    let outcomes = g.chance_outcomes().expect("pending roll is a chance node");
    assert_eq!(outcomes.len(), 126, "126 distinct sorted 4-dice multisets");
    let total: f64 = outcomes.iter().map(|(_, w)| *w as f64 / 1296.0).sum();
    assert!((total - 1.0).abs() < 1e-9, "weights sum to 1, got {total}");
    let mult_sum: i64 = outcomes.iter().map(|(_, w)| *w as i64).sum();
    assert_eq!(mult_sum, 1296);
}

#[test]
fn multiplicity_counts() {
    assert_eq!(multiplicity(1, 1, 1, 1), 1); // quad
    assert_eq!(multiplicity(1, 2, 3, 4), 24); // all distinct
    assert_eq!(multiplicity(1, 1, 2, 3), 12); // one pair
    assert_eq!(multiplicity(1, 1, 2, 2), 6); // two pair
    assert_eq!(multiplicity(1, 1, 1, 2), 4); // triple
}

#[test]
fn pairing_respects_three_runner_limit() {
    let mut g = Climb::new(2, 3);
    g.runners = vec![(col_index(4), 1), (col_index(5), 1), (col_index(6), 1)];
    g.phase = Phase::Pair;
    // Dice 1,1,6,6 → pairings (2,12),(7,7),(7,7): every column would be a fourth runner.
    g.dice = Some([1, 1, 6, 6]);
    assert!(g.legal_pairings().is_empty(), "no 4th runner column allowed");
}

#[test]
fn pairing_can_extend_an_existing_runner_when_full() {
    let mut g = Climb::new(2, 3);
    g.runners = vec![(col_index(4), 1), (col_index(6), 1), (col_index(8), 1)];
    g.phase = Phase::Pair;
    // 2,2,4,4 → (4,8), (6,6), (6,6); columns 4 and 8 already carry runners.
    g.dice = Some([2, 2, 4, 4]);
    let moves = g.legal_pairings();
    assert!(moves.contains(&ClimbMove::Pair(4, Some(8))), "extend both existing runners: {moves:?}");
}

#[test]
fn bust_detected_and_turn_passes() {
    let mut g = Climb::new(2, 3);
    g.runners = vec![(col_index(2), 3), (col_index(3), 5), (col_index(12), 3)];
    set_dice(&mut g, [1, 1, 6, 6]);
    assert!(g.busted, "should bust");
    assert_eq!(g.current, 1, "turn passed to player 2");
    assert!(g.runners.is_empty(), "runner progress wiped");
}

#[test]
fn stop_banks_and_claims_column_at_top() {
    let mut g = Climb::new(2, 3);
    g.runners = vec![(col_index(2), 3)];
    g.phase = Phase::Act;
    g.make_move(&ClimbMove::Stop);
    assert_eq!(g.banked[0][col_index(2)], 3, "banked to the top");
    assert_eq!(g.claimed[col_index(2)], 0, "column 2 claimed by seat 0");
    assert_eq!(g.current, 1, "turn passed");
}

#[test]
fn win_at_target_columns_correct_seat() {
    let mut g = Climb::new(2, 3);
    g.claimed[col_index(2)] = 0;
    g.claimed[col_index(12)] = 0;
    g.runners = vec![(col_index(3), 5)];
    g.make_move(&ClimbMove::Stop);
    assert!(g.is_terminal(), "reaching 3 columns ends the game");
    assert_eq!(g.result_seat(), Some(0), "seat 0 wins");
    assert_eq!(g.winner, Some(0));
}

#[test]
fn turn_cap_adjudicates_by_claimed_count() {
    let mut g = Climb::new(2, 3);
    g.claimed[col_index(4)] = 1;
    g.turns = TURN_CAP;
    assert!(g.is_terminal());
    assert_eq!(g.result_seat(), Some(1), "most claimed columns wins the cap");
    let mut h = Climb::new(2, 3);
    h.turns = TURN_CAP;
    assert!(h.is_terminal());
    assert_eq!(h.result_seat(), None, "0-0 at the cap is a draw");
}

#[test]
fn doubles_advance_same_column_twice() {
    let mut g = Climb::new(2, 3);
    g.phase = Phase::Pair;
    g.dice = Some([3, 3, 3, 3]);
    let moves = g.legal_pairings();
    assert!(moves.contains(&ClimbMove::Pair(6, Some(6))), "doubles step twice: {moves:?}");
    g.make_move(&ClimbMove::Pair(6, Some(6)));
    assert_eq!(g.cur_pos(col_index(6)), 2, "column 6 runner advanced two steps");
}

#[test]
fn must_roll_before_stopping() {
    let g = Climb::new(2, 3);
    let moves = g.available_moves();
    assert!(moves.contains(&ClimbMove::Roll));
    assert!(!moves.contains(&ClimbMove::Stop), "cannot stop with no progress");
}

#[test]
fn ai_plays_a_full_turn() {
    // The text surface: a roll applies and the board has 13 fields.
    let mut g = Climb::new(2, 3);
    let mut rng = SmallRng::seed_from_u64(5);
    assert!(g.apply_text("Roll", &mut rng), "roll should apply");
    let board = g.board_string();
    assert_eq!(board.split('|').count(), 13, "13 board fields");
}

#[test]
fn ai_can_finish_a_game_within_the_cap() {
    // A game played by random legal moves reaches a terminal state.
    let mut g = Climb::new(2, 2);
    let mut rng = SmallRng::seed_from_u64(17);
    let mut pick = SmallRng::seed_from_u64(18);
    for _ in 0..200_000 {
        if g.is_terminal() {
            break;
        }
        let legal = g.legal_moves_string();
        let ms: Vec<&str> = legal.split(',').collect();
        let m = ms[pick.gen_range(0..ms.len())].to_string();
        assert!(g.apply_text(&m, &mut rng), "move {m} should apply");
    }
    assert!(g.is_terminal(), "game reached a terminal state");
    assert!(!g.result_string().is_empty(), "terminal has a result string");
}

// Further cases.

#[test]
fn move_texts_and_pair_parsing() {
    assert_eq!(ClimbMove::Roll.encode(), "Roll");
    assert_eq!(ClimbMove::Stop.encode(), "Stop");
    assert_eq!(ClimbMove::Dice(1, 2, 3, 4).encode(), "Dice(1,2,3,4)");
    assert_eq!(ClimbMove::Pair(4, Some(9)).encode(), "P4-9");
    assert_eq!(ClimbMove::Pair(8, None).encode(), "P8");
    assert_eq!(parse_pair("P4-9"), Some(ClimbMove::Pair(4, Some(9))));
    assert_eq!(parse_pair("P8"), Some(ClimbMove::Pair(8, None)));
    assert_eq!(parse_pair("P+7"), Some(ClimbMove::Pair(7, None)));
    assert_eq!(parse_pair("Q8"), None);
    assert_eq!(parse_pair("P4-"), None);
    assert_eq!(parse_pair("P4-9-1"), None);
    assert_eq!(parse_pair("P300"), None);
}

#[test]
fn outcomes_are_sorted_and_distinct() {
    let v = dice_outcomes();
    assert_eq!(v.len(), 126);
    assert_eq!(v[0], (ClimbMove::Dice(1, 1, 1, 1), 1));
    assert_eq!(v[125], (ClimbMove::Dice(6, 6, 6, 6), 1));
    assert_eq!(Climb::new(2, 3).chance_outcomes(), None);
}

#[test]
fn climb_board_and_result_strings() {
    let g = Climb::new(2, 3);
    let b = g.board_string();
    assert!(b.starts_with("0,2,3,0,500,act,0|-|3:-1:-1:0,0|5:-1:-1:0,0|"), "{b}");
    assert_eq!(g.result_string(), "");
    assert_eq!(g.legal_moves_string(), "Roll");
    let mut w = Climb::new(2, 3);
    w.winner = Some(1);
    assert_eq!(w.result_string(), "2");
    let mut d = Climb::new(3, 3);
    d.turns = TURN_CAP;
    assert_eq!(d.result_string(), "Draw");
}

#[test]
fn illegal_text_is_refused() {
    let mut g = Climb::new(2, 3);
    let mut rng = SmallRng::seed_from_u64(1);
    let before = g.board_string();
    assert!(!g.apply_text("Stop", &mut rng));
    assert!(!g.apply_text("P7", &mut rng));
    assert_eq!(g.board_string(), before);
}

#[test]
fn score_array_weights_claims_and_progress() {
    let mut g = Climb::new(2, 3);
    g.claimed[col_index(2)] = 1;
    g.banked[1][col_index(7)] = 13; // top of column 7 (height 13): 100 percent
    g.runners = vec![(col_index(6), 11)]; // current seat 0 live runner: 100 percent
    let s = g.score_array();
    assert_eq!(s[0], 100);
    assert_eq!(s[1], 10_000 + 100);
    assert_eq!(s[2], i64::MIN);
    assert_eq!(s[3], i64::MIN);
}
