use rand::rngs::SmallRng;
use rand::SeedableRng;
use treant_wasm::pig::{settings, Pig, PigMove};

#[test]
fn hold_banks_and_advances() {
    let mut g = Pig::new(2, 100);
    g.make_move(&PigMove::Roll);
    g.make_move(&PigMove::Die(4));
    g.make_move(&PigMove::Roll);
    g.make_move(&PigMove::Die(5));
    assert_eq!(g.turn_total, 9);
    assert_eq!(g.current, 0);
    g.make_move(&PigMove::Hold);
    assert_eq!(g.scores[0], 9);
    assert_eq!(g.current, 1);
}

#[test]
fn rolling_a_one_busts_the_turn() {
    let mut g = Pig::new(2, 100);
    g.make_move(&PigMove::Roll);
    g.make_move(&PigMove::Die(6));
    assert_eq!(g.turn_total, 6);
    g.make_move(&PigMove::Roll);
    g.make_move(&PigMove::Die(1));
    assert_eq!(g.turn_total, 0);
    assert_eq!(g.current, 1, "turn passes on a 1");
    assert_eq!(g.scores[0], 0, "nothing banked");
}

#[test]
fn reaching_target_wins() {
    let mut g = Pig::new(2, 20);
    g.scores[0] = 15;
    g.make_move(&PigMove::Roll);
    g.make_move(&PigMove::Die(5));
    g.make_move(&PigMove::Hold);
    assert_eq!(g.winner(), Some(0));
}

#[test]
fn ai_picks_a_move() {
    // The choices offered at the root are Roll and Hold.
    let g = Pig::new(2, 100);
    let texts: Vec<String> = g.available_moves().iter().map(|m| m.encode()).collect();
    assert_eq!(texts, vec!["Roll".to_string(), "Hold".to_string()]);
}

// Further cases.

#[test]
fn pig_settings_text_and_eval() {
    assert_eq!(settings(1, 5), (2, 20));
    assert_eq!(settings(9, 500), (6, 200));
    assert_eq!(settings(258, 50), (2, 50));
    let mut g = Pig::new(3, 50);
    g.scores = vec![10, 30, 20];
    g.turn_total = 7;
    g.last_roll = 3;
    assert_eq!(g.board_string(), "10,30,20|7|3|50");
    assert_eq!(g.eval_for(0), 10 + 7 - 30);
    assert_eq!(g.eval_for(1), 30 - 20);
    assert_eq!(g.result_string(), "");
    g.scores[2] = 50;
    assert!(g.is_terminal());
    assert_eq!(g.result_string(), "3");
    assert!(g.available_moves().is_empty());
}

#[test]
fn pig_apply_text() {
    let mut rng = SmallRng::seed_from_u64(5);
    let mut g = Pig::new(2, 100);
    assert!(!g.apply_text("roll", &mut rng));
    assert!(g.apply_text("Roll", &mut rng));
    assert!(!g.pending);
    assert!((1..=6).contains(&g.last_roll));
    if g.last_roll == 1 {
        assert_eq!(g.current, 1);
    } else {
        assert_eq!(g.turn_total, g.last_roll as u32);
    }
    let before = g.turn_total;
    let who = g.current as usize;
    assert!(g.apply_text("Hold", &mut rng));
    assert_eq!(g.scores[who], before);
    assert!(g.chance_outcomes().is_none());
    g.make_move(&PigMove::Roll);
    assert_eq!(g.chance_outcomes().unwrap().len(), 6);
}
