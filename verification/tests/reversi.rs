use treant_wasm::outcome::Outcome;
use treant_wasm::reversi::{parse_rv_move, table_side, Reversi, RvMove};

fn table(cols: u32, rows: u32, anti: u32) -> Reversi {
    Reversi::new(table_side(cols), table_side(rows), anti != 0)
}

#[test]
fn opening_has_four_legal_moves() {
    let g = table(6, 6, 0);
    assert_eq!(g.legal_moves_string().split(',').count(), 4);
    assert_eq!(g.scores(), "2,2");
}

#[test]
fn placing_flips_a_disc() {
    let g0 = Reversi::new(6, 6, false);
    let mv = g0.available_moves()[0];
    let mut g = g0.clone();
    let before = g.count(0);
    g.make_move(&mv);
    assert!(g.count(0) >= before + 2);
    assert_eq!(g.current, 1);
}

#[test]
fn reversi_ai_plays() {
    // Any offered move is accepted from the opening.
    let mut g = table(6, 6, 0);
    let m = g.legal_moves_string().split(',').next().unwrap().to_string();
    assert!(g.apply_text(&m));
}

#[test]
fn anti_reversi_awards_the_win_to_fewer_discs() {
    let mut g = table(4, 4, 1);
    while g.term().is_none() {
        let m = g.legal_moves_string().split(',').next().unwrap().to_string();
        assert!(g.apply_text(&m));
    }
    let b = g.board_string();
    let x = b.chars().filter(|&c| c == 'X').count();
    let o = b.chars().filter(|&c| c == 'O').count();
    let expect = if x < o { "1" } else if o < x { "2" } else { "Draw" };
    assert_eq!(g.result_string(), expect);
}

// Further cases.

#[test]
fn reversi_opening_details() {
    let g = Reversi::new(4, 4, false);
    assert_eq!(g.board_string(), "     XO  OX     ");
    assert_eq!(g.legal_moves_string(), "2,7,8,13");
    // Cell 2 (row 0, col 2) brackets the O at 6 against the X at 10.
    assert_eq!(g.flips(2, 0), vec![6]);
    assert_eq!(g.flips(0, 0), Vec::<usize>::new());
    assert!(g.is_legal(2, 0));
    assert!(!g.is_legal(5, 0));
    assert_eq!(g.corners(0), 0);
    assert_eq!(g.mobility(0), 4);
    assert_eq!(g.eval0(), 0);
    assert_eq!(table_side(7), 6);
    assert_eq!(table_side(1), 4);
    assert_eq!(table_side(31), 10);
}

#[test]
fn reversi_placement_text_and_pass() {
    let mut g = Reversi::new(4, 4, false);
    assert!(!g.apply_text("pass"));
    assert!(!g.apply_text("0"));
    assert!(!g.apply_text("16"));
    assert!(g.apply_text("2"));
    assert_eq!(g.board_string(), "  X  XX  OX     ");
    assert_eq!(g.scores(), "4,1");
    assert_eq!(g.current_player(), 1);
    assert_eq!(parse_rv_move("pass", 16), Some(RvMove::Pass));
    assert_eq!(parse_rv_move("15", 16), Some(RvMove::Place(15)));
    assert_eq!(parse_rv_move("16", 16), None);
    // A side with no placement but facing a side that has one must pass.
    let mut p = Reversi::new(4, 4, false);
    p.board = vec![-1; 16];
    p.board[0] = 0;
    p.board[1] = 1;
    p.current = 1;
    assert_eq!(p.available_moves(), vec![RvMove::Pass]);
    assert_eq!(p.legal_moves_string(), "pass");
    assert!(p.term().is_none());
    assert!(p.apply_text("pass"));
    assert_eq!(p.current, 0);
    assert_eq!(p.legal_moves_string(), "2");
}

#[test]
fn reversi_terminal_counts() {
    let mut g = Reversi::new(4, 4, false);
    g.board = vec![0; 16];
    g.board[15] = 1;
    assert_eq!(g.term(), Some(Outcome::Win));
    assert_eq!(g.result_string(), "1");
    g.anti = true;
    assert_eq!(g.term(), Some(Outcome::Loss));
    assert_eq!(g.result_string(), "2");
    g.board = vec![-1; 16];
    assert_eq!(g.term(), Some(Outcome::Draw));
    assert_eq!(g.result_string(), "Draw");
    assert_eq!(g.eval_for(1), 0);
}
