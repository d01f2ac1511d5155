use treant_wasm::amazons::{Amazons, AzMove, ARROW};
use treant_wasm::outcome::Outcome;

#[test]
fn opening_setup_has_two_amazons_each() {
    let g = Amazons::new(6, 6);
    assert_eq!(g.grid.iter().filter(|&&v| v == 0).count(), 2);
    assert_eq!(g.grid.iter().filter(|&&v| v == 1).count(), 2);
    assert!(!g.gen().is_empty());
}

#[test]
fn move_relocates_amazon_and_burns_arrow_square() {
    let mut g = Amazons::new(6, 6);
    let m = *g.gen().iter().find(|m| m.arrow != m.from).unwrap();
    g.make_move(&m);
    assert_eq!(g.grid[m.from as usize], -1);
    assert_eq!(g.grid[m.to as usize], 0);
    assert_eq!(g.grid[m.arrow as usize], ARROW);
    assert_eq!(g.current, 1);
}

#[test]
fn arrow_may_land_on_the_amazons_old_square() {
    let g = Amazons::new(6, 6);
    let any_back = g.gen().iter().any(|m| m.arrow == m.from);
    assert!(any_back);
}

#[test]
fn amazons_ai_plays() {
    // The opening position offers moves and is not over.
    let g = Amazons::new(6, 6);
    assert!(g.term().is_none());
    assert!(!g.legal_moves_string().is_empty());
}

// Further cases.

#[test]
fn amazons_text_surface() {
    let mut g = Amazons::new(6, 6);
    // Amazons at 1 and 4 (X) and 31, 34 (O).
    assert_eq!(&g.board_string()[0..6], " X  X ");
    assert_eq!(AzMove { from: 1, to: 7, arrow: 13 }.encode(), "1-7-13");
    assert!(g.apply_text("1-7-13"));
    assert_eq!(g.grid[1], -1);
    assert_eq!(g.grid[7], 0);
    assert_eq!(g.grid[13], ARROW);
    assert!(!g.apply_text("1-7-13"), "square 1 is empty now");
    assert!(!g.apply_text("31-25"), "three numbers are needed");
    assert!(!g.apply_text("31-25-19-1"));
    assert_eq!(g.result_string(), "");
}

#[test]
fn a_boxed_in_side_loses() {
    let mut g = Amazons::new(3, 3);
    // X amazon in the corner 0 boxed by burnt squares.
    for i in 0..9 {
        g.grid[i] = -1;
    }
    g.grid[0] = 0;
    g.grid[1] = ARROW;
    g.grid[3] = ARROW;
    g.grid[4] = ARROW;
    g.grid[8] = 1;
    g.current = 0;
    assert!(g.gen().is_empty());
    assert_eq!(g.term(), Some(Outcome::Loss));
    assert_eq!(g.result_string(), "2");
}

#[test]
fn ray_stops_at_occupied_squares() {
    let g = Amazons::new(6, 6);
    // From square 1 (row 0, col 1) going right: 2, 3 and then the amazon on 4.
    assert_eq!(g.ray(0, 1, 0, 1, -1), vec![2, 3]);
    // Treating 4 as empty lets the line continue to 5.
    assert_eq!(g.ray(0, 1, 0, 1, 4), vec![2, 3, 4, 5]);
}
