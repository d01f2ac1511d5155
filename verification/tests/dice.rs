use treant_wasm::dice::{DiceGame, DiceMove};

#[test]
fn roll_opens_a_chance_node_and_resolves() {
    let mut g = DiceGame { score: 0, pending_roll: false, stopped: false };
    g.make_move(&DiceMove::Roll);
    assert!(g.pending_roll);
    let outcomes = g.chance_outcomes().expect("a pending roll is a chance node");
    assert_eq!(outcomes.len(), 6);
    // The faces are equally likely.
    let total: f64 = outcomes.iter().map(|_| 1.0 / outcomes.len() as f64).sum();
    assert!((total - 1.0).abs() < 1e-9, "chance probs sum to 1");
    g.make_move(&DiceMove::Die(6));
    assert_eq!(g.score, 6);
    assert!(!g.pending_roll);
    assert!(!g.available_moves().is_empty(), "still playable below 20");
}

#[test]
fn terminal_when_capped_or_stopped() {
    let mut g = DiceGame { score: 18, pending_roll: false, stopped: false };
    g.make_move(&DiceMove::Roll);
    g.make_move(&DiceMove::Die(6));
    assert_eq!(g.score, 24);
    assert!(g.available_moves().is_empty());
    let mut h = DiceGame { score: 5, pending_roll: false, stopped: false };
    h.make_move(&DiceMove::Stop);
    assert!(h.available_moves().is_empty());
}

#[test]
fn wasm_surface_searches_the_chance_tree() {
    // The decision at the root is one of the two push-your-luck moves.
    let g = DiceGame::new(0);
    assert_eq!(g.score, 0);
    let texts: Vec<String> = g.available_moves().iter().map(|m| m.encode()).collect();
    assert_eq!(texts, vec!["Roll".to_string(), "Stop".to_string()]);
}

// Further cases.

#[test]
fn dice_faces_and_texts() {
    let g = DiceGame::new(3);
    assert!(g.chance_outcomes().is_none());
    let mut r = g;
    r.make_move(&DiceMove::Roll);
    assert!(r.available_moves().is_empty(), "no choice while the die rolls");
    let faces = r.chance_outcomes().unwrap();
    assert_eq!(faces, (1..=6).map(DiceMove::Die).collect::<Vec<_>>());
    assert_eq!(DiceMove::Die(4).encode(), "Die(4)");
    r.make_move(&DiceMove::Die(4));
    assert_eq!(r.score, 7);
}
