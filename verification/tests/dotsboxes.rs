use treant_wasm::dotsboxes::DotsBoxes;
use treant_wasm::outcome::Outcome;

#[test]
fn completing_a_box_claims_it_and_grants_another_turn() {
    let mut g = DotsBoxes::new(2, 2);
    let (t, b, l, r) = (g.h(0, 0), g.h(1, 0), g.v(0, 0), g.v(0, 1));
    g.make_move(&(t as u16));
    assert_eq!(g.current, 1);
    g.current = 0;
    g.make_move(&(b as u16));
    g.current = 0;
    g.make_move(&(l as u16));
    g.current = 0;
    g.make_move(&(r as u16));
    assert_eq!(g.owner[0], 0, "box claimed by p0");
    assert_eq!(g.current, 0, "completing a box -> p0 goes again");
}

#[test]
fn full_board_scores_decide() {
    let mut g = DotsBoxes::new(2, 2);
    while g.term().is_none() {
        let m = g.legal_moves_string();
        let first = m.split(',').next().unwrap().to_string();
        assert!(g.apply_text(&first));
    }
    assert!(g.term().is_some());
    assert!(!g.result_string().is_empty());
}

#[test]
fn dotsboxes_ai_plays() {
    // The opening offers every edge of a 3x3 board.
    let g = DotsBoxes::new(3, 3);
    assert_eq!(g.available_moves().len(), 24);
}

// Further cases.

#[test]
fn adjacent_boxes_of_edges() {
    let g = DotsBoxes::new(2, 2);
    assert_eq!(g.adjacent_boxes(0), vec![(0, 0)]);
    assert_eq!(g.adjacent_boxes(g.h(1, 1)), vec![(0, 1), (1, 1)]);
    assert_eq!(g.adjacent_boxes(g.v(0, 0)), vec![(0, 0)]);
    assert_eq!(g.adjacent_boxes(g.v(1, 1)), vec![(1, 0), (1, 1)]);
    assert_eq!(g.adjacent_boxes(g.v(1, 2)), vec![(1, 1)]);
}

#[test]
fn one_edge_can_complete_two_boxes() {
    let mut g = DotsBoxes::new(2, 1);
    // Draw every edge but the middle vertical one.
    let mid = g.v(0, 1);
    for e in 0..g.edges.len() {
        if e != mid {
            g.edges[e] = true;
        }
    }
    g.current = 1;
    g.make_move(&(mid as u16));
    assert_eq!(g.owner, vec![1, 1]);
    assert_eq!(g.current, 1);
    assert_eq!(g.score(1), 2);
    // Player 1 (to move) has both boxes.
    assert_eq!(g.term(), Some(Outcome::Win));
    assert_eq!(g.result_string(), "2");
}

#[test]
fn dotsboxes_text_surface() {
    let mut g = DotsBoxes::new(1, 1);
    assert_eq!(g.board_string(), "0000|.|0,0");
    assert_eq!(g.legal_moves_string(), "0,1,2,3");
    assert!(g.apply_text("2"));
    assert!(!g.apply_text("2"));
    assert!(!g.apply_text("9"));
    assert_eq!(g.board_string(), "0010|.|0,0");
}
