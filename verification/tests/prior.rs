use treant_wasm::prior::{PriorGame, PriorMove};

#[test]
fn prior_game_scores_and_texts() {
    let mut g = PriorGame::new();
    assert_eq!(g.available_moves(), vec![PriorMove::A, PriorMove::B, PriorMove::C]);
    g.make_move(&PriorMove::A);
    g.make_move(&PriorMove::B);
    g.make_move(&PriorMove::C);
    assert_eq!(g, PriorGame { depth: 3, score: 16 });
    assert!(g.available_moves().is_empty());
    let texts: Vec<String> = [PriorMove::A, PriorMove::B, PriorMove::C].iter().map(|m| m.encode()).collect();
    assert_eq!(texts, vec!["A(+10)", "B(+5)", "C(+1)"]);
}
