use treant_wasm::foxhounds::{FhMove, FoxHounds};
use treant_wasm::outcome::Outcome;

#[test]
fn setup_has_one_fox_and_some_hounds() {
    let g = FoxHounds::new(8, 8);
    assert_eq!(g.grid.iter().filter(|&&v| v == 0).count(), 1);
    assert_eq!(g.grid.iter().filter(|&&v| v == 1).count(), 4);
    assert_eq!(g.fox_row(), 7);
}

#[test]
fn hounds_only_move_forward() {
    let g = FoxHounds::new(8, 8);
    let mut h = g.clone();
    h.current = 1;
    for m in h.gen() {
        let fr = m.from as usize / 8;
        let tr = m.to as usize / 8;
        assert_eq!(tr, fr + 1);
    }
}

#[test]
fn fox_reaching_top_row_wins() {
    let mut g = FoxHounds::new(8, 8);
    let f = g.grid.iter().position(|&v| v == 0).unwrap();
    g.grid[f] = -1;
    g.grid[1] = 0;
    g.current = 1;
    assert_eq!(g.fox_row(), 0);
    assert_eq!(g.term(), Some(Outcome::Loss));
}

#[test]
fn foxhounds_ai_plays() {
    // The opening offers the fox moves.
    let g = FoxHounds::new(8, 8);
    assert!(!g.gen().is_empty());
    assert!(g.term().is_none());
}

// Further cases.

#[test]
fn fox_starts_on_the_dark_square_nearest_the_middle() {
    let g = FoxHounds::new(8, 8);
    // Row 7: dark squares where (7 + c) is odd, i.e. even columns; nearest to column 4 is 4.
    assert_eq!(g.grid[7 * 8 + 4], 0);
}

#[test]
fn foxhounds_text_surface() {
    let mut g = FoxHounds::new(8, 8);
    assert_eq!(g.legal_moves_string(), "60-51,60-53");
    assert_eq!(FhMove { from: 60, to: 51 }.encode(), "60-51");
    assert!(g.apply_text("60-51"));
    assert_eq!(g.current, 1);
    assert!(!g.apply_text("60-51"));
    assert!(!g.apply_text("1-8-9"));
    assert!(g.apply_text("1-8"));
    assert_eq!(g.result_string(), "");
    assert_eq!(&g.board_string()[0..8], "   O O O");
}

#[test]
fn stuck_side_loses_and_result_names_the_other() {
    let mut g = FoxHounds::new(4, 4);
    for i in 0..16 {
        g.grid[i] = -1;
    }
    // Fox in a bottom corner hemmed in by a hound.
    g.grid[12] = 0;
    g.grid[9] = 1;
    g.grid[5] = 1;
    g.current = 0;
    assert!(g.gen().is_empty());
    assert_eq!(g.term(), Some(Outcome::Loss));
    assert_eq!(g.result_string(), "2");
}
