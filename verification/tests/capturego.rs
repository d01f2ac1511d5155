use treant_wasm::capturego::CaptureGo;
use treant_wasm::gridlib::idx;
use treant_wasm::outcome::Outcome;

#[test]
fn surrounding_a_stone_captures_and_wins() {
    let mut g = CaptureGo::new(5, 5);
    let mid = idx(2, 2, 5);
    g.board[mid] = 1; // O
    g.board[idx(1, 2, 5)] = 0;
    g.board[idx(3, 2, 5)] = 0;
    g.board[idx(2, 1, 5)] = 0;
    g.current = 0;
    g.make_move(&(idx(2, 3, 5) as u16)); // closes the last liberty
    assert_eq!(g.board[mid], -1, "O captured");
    assert!(g.term().is_some());
    assert_eq!(g.term(), Some(Outcome::Loss)); // current is now O, who lost
}

#[test]
fn suicide_is_illegal() {
    let mut g = CaptureGo::new(5, 5);
    let mid = idx(2, 2, 5);
    g.board[idx(1, 2, 5)] = 0;
    g.board[idx(3, 2, 5)] = 0;
    g.board[idx(2, 1, 5)] = 0;
    g.board[idx(2, 3, 5)] = 0;
    g.current = 1; // O to move
    let legal = g.available_moves();
    assert!(!legal.contains(&(mid as u16)), "playing into a surrounded point is suicide");
}

#[test]
fn capturego_ai_plays() {
    // The opening offers every point and the evaluation is symmetric.
    let g = CaptureGo::new(5, 5);
    assert_eq!(g.available_moves().len(), 25);
    assert_eq!(g.eval0(), 0);
}

// Further cases.

#[test]
fn group_flood_and_liberty() {
    let mut g = CaptureGo::new(4, 4);
    // Two connected X stones at 5, 6 and a separate X at 15.
    g.board[5] = 0;
    g.board[6] = 0;
    g.board[15] = 0;
    let b = g.board.clone();
    let (mut grp, lib) = g.group(&b, 5);
    grp.sort();
    assert_eq!(grp, vec![5, 6]);
    assert!(lib);
    // Fill every other point with O: the X pair has no liberty.
    for i in 0..16 {
        if b[i] == -1 {
            g.board[i] = 1;
        }
    }
    let b2 = g.board.clone();
    let (_, lib2) = g.group(&b2, 5);
    assert!(!lib2);
}

#[test]
fn orth_lists_up_down_left_right() {
    let g = CaptureGo::new(5, 4);
    assert_eq!(g.orth(0), vec![5, 1]);
    assert_eq!(g.orth(7), vec![2, 12, 6, 8]);
    assert_eq!(g.orth(19), vec![14, 18]);
}

#[test]
fn atari_counts_in_the_evaluation() {
    let mut g = CaptureGo::new(5, 5);
    // An O stone in the corner with X next to it: O has one liberty (atari).
    g.board[0] = 1;
    g.board[1] = 0;
    let with_atari = g.eval0();
    let mut h = g.clone();
    h.board[5] = 0; // now O has no liberty at all: no atari bonus
    // Centre terms: X at (0,1) weighs 2, X at (1,0) weighs 2, O in the corner 0.
    assert_eq!(with_atari, 2 + 6);
    assert_eq!(h.eval0(), 4);
}

#[test]
fn text_surface() {
    let mut g = CaptureGo::new(4, 4);
    assert_eq!(g.board_string(), "                ");
    assert!(g.apply_text("5"));
    assert_eq!(g.board_string(), "     X          ");
    assert!(!g.apply_text("5"), "occupied");
    assert!(!g.apply_text("16"), "off the board");
    assert!(!g.apply_text("x"));
    assert_eq!(g.result_string(), "");
    assert!(g.legal_moves_string().starts_with("0,1,2,3,4,6"));
}

#[test]
fn capture_result_names_the_capturer() {
    let mut g = CaptureGo::new(4, 4);
    g.board[0] = 1;
    g.board[1] = 0;
    g.current = 0;
    assert!(g.apply_text("4"));
    assert_eq!(g.board[0], -1);
    assert_eq!(g.result_string(), "1");
    assert!(g.available_moves().is_empty());
}
