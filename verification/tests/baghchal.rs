use treant_wasm::baghchal::{neighbors, parse_move, Baghchal, BcMove, GOAT, N, PLACE, PLY_CAP, TIGER};
use treant_wasm::outcome::Outcome;

#[test]
fn lattice_adjacency_spot_checks() {
    let mut c = neighbors(12);
    c.sort();
    assert_eq!(c, vec![6, 7, 8, 11, 13, 16, 17, 18]);
    let mut a = neighbors(0);
    a.sort();
    assert_eq!(a, vec![1, 5, 6]);
    let mut b = neighbors(1);
    b.sort();
    assert_eq!(b, vec![0, 2, 6]);
    let mut d = neighbors(6);
    d.sort();
    assert_eq!(d, vec![0, 1, 2, 5, 7, 10, 11, 12]);
}

#[test]
fn opening_is_goat_placement_over_every_empty_point() {
    let g = Baghchal::new(20, 5);
    assert_eq!(g.current, GOAT);
    assert_eq!(g.grid.iter().filter(|&&v| v == TIGER as i8).count(), 4);
    let moves = g.gen();
    assert_eq!(moves.len(), N - 4);
    assert!(moves.iter().all(|m| m.from == PLACE));
}

#[test]
fn tiger_jumps_and_captures_the_goat() {
    let mut g = Baghchal::new(20, 5);
    g.grid = [-1; N];
    g.grid[12] = TIGER as i8;
    g.grid[13] = GOAT as i8;
    g.in_hand = 0;
    g.current = TIGER;
    let jump = BcMove { from: 12, to: 14 };
    assert!(g.gen().contains(&jump), "the jump 12-14 should be legal");
    g.make_move(&jump);
    assert_eq!(g.grid[14], TIGER as i8);
    assert_eq!(g.grid[12], -1);
    assert_eq!(g.grid[13], -1);
    assert_eq!(g.captured, 1);
    assert_eq!(g.current, GOAT);
}

#[test]
fn a_goat_on_the_landing_point_blocks_the_jump() {
    let mut g = Baghchal::new(20, 5);
    g.grid = [-1; N];
    g.grid[12] = TIGER as i8;
    g.grid[13] = GOAT as i8;
    g.grid[14] = GOAT as i8;
    g.in_hand = 0;
    g.current = TIGER;
    assert!(!g.gen().contains(&BcMove { from: 12, to: 14 }), "blocked landing → no jump");
    assert!(g.gen().iter().any(|m| m.from == 12), "tiger still has slides");
}

#[test]
fn reaching_the_capture_target_is_a_tiger_win() {
    let mut g = Baghchal::new(20, 5);
    g.captured = 5;
    g.current = GOAT;
    assert_eq!(g.term(), Some(Outcome::Loss));
    g.current = TIGER;
    assert_eq!(g.term(), Some(Outcome::Win));
}

#[test]
fn immobilised_tigers_is_a_goat_win() {
    let mut g = Baghchal::new(20, 5);
    g.grid = [-1; N];
    g.grid[0] = TIGER as i8;
    for &p in &[1usize, 5, 6, 2, 10, 12] {
        g.grid[p] = GOAT as i8;
    }
    g.in_hand = 0;
    g.current = TIGER;
    assert!(g.gen().is_empty(), "tiger should be fully boxed in");
    assert_eq!(g.term(), Some(Outcome::Loss));
}

#[test]
fn baghchal_ply_cap_forces_a_draw() {
    let mut g = Baghchal::new(20, 5);
    g.in_hand = 0;
    g.ply = PLY_CAP;
    assert_eq!(g.term(), Some(Outcome::Draw));
}

#[test]
fn baghchal_move_encodings_round_trip() {
    assert_eq!(parse_move("p7"), Some(BcMove { from: PLACE, to: 7 }));
    assert_eq!(parse_move("3-8"), Some(BcMove { from: 3, to: 8 }));
    assert_eq!(BcMove { from: PLACE, to: 7 }.encode(), "p7");
    assert_eq!(BcMove { from: 3, to: 8 }.encode(), "3-8");
    assert!(parse_move("garbage").is_none());
    assert!(parse_move("p99").is_none());
}

#[test]
fn baghchal_ai_plays() {
    // The text surface of the opening position.
    let g = Baghchal::new(20, 5);
    let board = g.board_string();
    assert_eq!(board.split('|').nth(1), Some("20,0"));
    assert_eq!(g.in_hand, 20);
    assert_eq!(g.captured, 0);
}

#[test]
fn baghchal_ai_plays_a_full_game_to_terminal() {
    // Playing the first legal move each ply reaches a verdict without a rejected move.
    let mut g = Baghchal::new(12, 3);
    for _ in 0..500 {
        if g.term().is_some() {
            break;
        }
        let legal = g.legal_moves_string();
        let mv = legal.split(',').next().unwrap().to_string();
        assert!(g.apply_text(&mv), "rejected its own move {mv}");
    }
    assert!(g.term().is_some() || !g.legal_moves_string().is_empty());
}

// Further cases.

#[test]
fn baghchal_board_and_result_strings() {
    let g = Baghchal::new(20, 5);
    assert_eq!(g.board_string(), "T   T               T   T|20,0");
    assert_eq!(g.result_string(), "");
    let mut w = Baghchal::new(20, 5);
    w.captured = 5;
    assert_eq!(w.result_string(), "2");
    let mut d = Baghchal::new(20, 5);
    d.ply = PLY_CAP;
    assert_eq!(d.result_string(), "Draw");
}

#[test]
fn goats_are_conserved_through_a_capture() {
    let mut g = Baghchal::new(20, 5);
    g.grid = [-1; N];
    g.grid[12] = TIGER as i8;
    g.grid[13] = GOAT as i8;
    g.grid[3] = GOAT as i8;
    g.in_hand = 0;
    g.current = TIGER;
    let goats = |b: &Baghchal| b.grid.iter().filter(|&&v| v == 0).count() as u32 + b.in_hand + b.captured;
    let before = goats(&g);
    assert!(g.apply_text("12-14"));
    assert_eq!(goats(&g), before);
    assert!(!g.apply_text("12-14"), "not the tiger's turn any more");
}

#[test]
fn placement_uses_the_hand() {
    let mut g = Baghchal::new(2, 5);
    assert!(g.apply_text("p12"));
    assert_eq!(g.in_hand, 1);
    assert_eq!(g.grid[12], GOAT as i8);
    assert_eq!(g.current, TIGER);
    assert!(!g.apply_text("p13"), "tigers do not place");
    assert!(g.legal_moves_string().split(',').all(|m| !m.starts_with('p')));
}
