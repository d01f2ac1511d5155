use treant_wasm::euclid::Euclid;
use treant_wasm::outcome::Outcome;

#[test]
fn moves_reduce_larger_by_multiples_of_smaller() {
    let g = Euclid::new(25, 7);
    assert_eq!(g.gen(), vec![18, 11, 4]);
}

#[test]
fn equal_numbers_have_a_single_winning_move() {
    let g = Euclid::new(9, 9);
    assert_eq!(g.gen(), vec![0]);
}

#[test]
fn a_zero_is_terminal_loss_for_mover() {
    let g = Euclid::new(0, 5);
    assert!(g.gen().is_empty());
    assert_eq!(g.term(), Some(Outcome::Loss));
}

#[test]
fn making_a_zero_is_a_legal_winning_move() {
    let mut g = Euclid::new(14, 7);
    assert!(g.gen().contains(&0));
    g.make_move(&0);
    assert!(g.a == 0 || g.b == 0);
}

#[test]
fn euclid_ai_plays() {
    // The opening position offers moves.
    let g = Euclid::new(25, 16);
    assert_eq!(g.legal_moves_string(), "9");
    assert!(g.term().is_none());
}

// Further cases.

#[test]
fn euclid_text_surface() {
    let mut g = Euclid::new(7, 25);
    assert_eq!(g.board_string(), "7,25");
    assert_eq!(g.legal_moves_string(), "18,11,4");
    assert!(!g.apply_text("5"));
    assert!(!g.apply_text("x"));
    assert!(g.apply_text("4"));
    assert_eq!(g.board_string(), "7,4");
    assert_eq!(g.current_player(), 1);
    assert_eq!(g.result_string(), "");
    assert!(g.apply_text("3"));
    assert!(g.apply_text("1"));
    assert!(g.apply_text("0"));
    assert_eq!(g.board_string(), "0,1");
    assert_eq!(g.result_string(), "2");
}
