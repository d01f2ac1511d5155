use treant_wasm::outcome::Outcome;
use treant_wasm::quadline::{decode, settings, Cell, QuadMove, QuadlineGame, PLY_CAP};

/// A game as the front end creates it.
fn quad_table(size: u32, diagonals: u32) -> QuadlineGame {
    let (size, diagonals) = settings(size, diagonals);
    QuadlineGame::new(size, diagonals)
}

fn play(g: &mut QuadlineGame, moves: &[&str]) {
    for m in moves {
        assert!(g.apply_text(m), "move {m} should be legal");
    }
}

#[test]
fn drop_phase_movegen_count() {
    let g = quad_table(5, 1);
    assert_eq!(g.legal_moves_string().split(',').count(), 25);
    assert!(g.in_placement_phase());
}

#[test]
fn drop_phase_lasts_eight_plies() {
    let mut g = quad_table(5, 1);
    play(&mut g, &["d0", "d5", "d1", "d6", "d2", "d7", "d20", "d24"]);
    assert!(!g.in_placement_phase(), "after 8 drops the move phase begins");
    let moves = g.legal_moves_string();
    assert!(!moves.is_empty());
    assert!(moves.split(',').all(|m| m.contains('-')), "move-phase moves slide");
}

#[test]
fn horizontal_line_of_four_wins() {
    let mut g = quad_table(5, 1);
    play(&mut g, &["d0", "d20", "d1", "d21", "d2", "d22"]);
    assert!(!g.is_terminal());
    assert!(g.apply_text("d3"), "Red completes the four-line");
    assert!(g.is_terminal(), "a completed line is terminal");
    assert_eq!(g.result_string(), "1", "Red (seat 1) wins");
}

#[test]
fn two_by_two_square_wins() {
    let mut g = quad_table(5, 1);
    play(&mut g, &["d0", "d20", "d1", "d21", "d5", "d22"]);
    assert!(!g.is_terminal());
    assert!(g.apply_text("d6"), "Red completes the 2x2 square");
    assert!(g.is_terminal());
    assert_eq!(g.result_string(), "1");
}

#[test]
fn diagonal_counts_only_when_enabled() {
    let diag = ["d0", "d20", "d6", "d21", "d12", "d22", "d18"];

    let mut on = quad_table(5, 1);
    play(&mut on, &diag[..6]);
    assert!(on.apply_text("d18"));
    assert!(on.is_terminal(), "diagonal wins when diagonals are on");
    assert_eq!(on.result_string(), "1");

    let mut off = quad_table(5, 0);
    play(&mut off, &diag[..6]);
    assert!(off.apply_text("d18"));
    assert!(!off.is_terminal(), "the same diagonal is NOT a win when diagonals are off");
}

#[test]
fn terminal_verdict_is_loss_for_player_to_move() {
    let mut g = quad_table(5, 1);
    play(&mut g, &["d0", "d20", "d1", "d21", "d2", "d22", "d3"]);
    assert_eq!(g.current, 1, "Yellow is to move");
    assert_eq!(g.terminal_value(), Some(Outcome::Loss));
}

#[test]
fn quadline_ply_cap_forces_a_draw() {
    let mut g = QuadlineGame::new(5, false);
    for m in [
        QuadMove { from: None, to: 0 },
        QuadMove { from: None, to: 24 },
        QuadMove { from: None, to: 2 },
        QuadMove { from: None, to: 22 },
        QuadMove { from: None, to: 4 },
        QuadMove { from: None, to: 20 },
        QuadMove { from: None, to: 10 },
        QuadMove { from: None, to: 14 },
    ] {
        g.make_move(&m);
    }
    assert!(g.terminal_value().is_none());
    let mut red_at = 10u8;
    let mut yel_at = 14u8;
    while g.terminal_value().is_none() {
        let (from, to) = if g.current == 0 {
            let t = if red_at == 10 { 11 } else { 10 };
            let mv = (red_at, t);
            red_at = t;
            mv
        } else {
            let t = if yel_at == 14 { 13 } else { 14 };
            let mv = (yel_at, t);
            yel_at = t;
            mv
        };
        g.make_move(&QuadMove { from: Some(from), to });
    }
    assert_eq!(g.terminal_value(), Some(Outcome::Draw));
    assert!(g.ply >= PLY_CAP);
}

#[test]
fn ai_plays_a_legal_move() {
    let mut g = quad_table(5, 1);
    let mv = g.legal_moves_string().split(',').next().unwrap().to_string();
    assert!(g.apply_text(&mv), "a listed move must be legal");
}

#[test]
fn move_texts_decode() {
    assert_eq!(decode("d7"), Some(QuadMove { from: None, to: 7 }));
    assert_eq!(decode("3-8"), Some(QuadMove { from: Some(3), to: 8 }));
    assert_eq!(decode("d"), None);
    assert_eq!(decode("d300"), None);
    assert_eq!(decode("3-8-9"), None);
    assert_eq!(decode("7"), None);
}

#[test]
fn slides_reach_only_adjacent_empty_cells() {
    let mut g = quad_table(4, 1);
    play(&mut g, &["d0", "d15", "d3", "d12", "d9", "d6", "d5", "d10"]);
    assert_eq!(g.legal_moves_string(), "0-1,0-4,3-2,3-7,5-1,5-2,5-4,5-8,9-4,9-8,9-13,9-14");
    assert!(!g.apply_text("0-2"));
    assert!(g.apply_text("0-1"));
    assert_eq!(g.board_string(), " X X XO  XO O  O");
}

#[test]
fn evaluation_rewards_own_shapes() {
    let mut g = quad_table(4, 0);
    assert_eq!(g.evaluate_for(0), 0);
    g.board[0] = Cell::Player(0);
    // Shapes through cell 0 without diagonals: its row, its column, its square.
    assert_eq!(g.evaluate_for(0), 3);
    assert_eq!(g.evaluate_for(1), -3);
}

#[test]
fn pieces_on_board_match_drops() {
    let mut g = quad_table(5, 1);
    play(&mut g, &["d0", "d5", "d1", "d6", "d2", "d7", "d20", "d24"]);
    for _ in 0..30 {
        if g.is_terminal() {
            break;
        }
        let m = g.available_moves()[0];
        g.make_move(&m);
        for p in 0..2u8 {
            let on_board = g.board.iter().filter(|c| **c == Cell::Player(p)).count();
            assert_eq!(on_board, g.pieces_placed[p as usize] as usize);
        }
    }
}
