use treant_wasm::clobber::{parse_cb_move, CbMove, Clobber};
use treant_wasm::gridlib::idx;
use treant_wasm::outcome::Outcome;

#[test]
fn checkerboard_start_has_moves() {
    let g = Clobber::new(5, 5);
    assert!(g.legal_moves_string().split(',').count() > 5);
    assert!(g.term().is_none());
}

#[test]
fn no_moves_loses() {
    let mut g = Clobber::new(3, 3);
    g.board = vec![-1; 9];
    g.board[idx(0, 0, 3)] = 0;
    g.current = 0;
    assert_eq!(g.term(), Some(Outcome::Loss));
}

#[test]
fn capture_removes_enemy_and_vacates() {
    let mut g = Clobber::new(3, 3);
    g.board = vec![-1; 9];
    g.board[idx(0, 0, 3)] = 0;
    g.board[idx(0, 1, 3)] = 1;
    g.current = 0;
    g.make_move(&CbMove { from: idx(0, 0, 3) as u16, to: idx(0, 1, 3) as u16 });
    assert_eq!(g.board[idx(0, 0, 3)], -1);
    assert_eq!(g.board[idx(0, 1, 3)], 0);
    assert_eq!(g.current, 1);
}

// Further cases.

#[test]
fn clobber_text_and_mobility() {
    let mut g = Clobber::new(2, 2);
    assert_eq!(g.board_string(), "XOOX");
    assert_eq!(g.legal_moves_string(), "0-2,0-1,3-1,3-2");
    assert_eq!(g.moves_for(0), 4);
    assert_eq!(g.moves_for(1), 4);
    assert_eq!(parse_cb_move("0-2"), Some(CbMove { from: 0, to: 2 }));
    assert!(!g.apply_text("0-3"));
    assert!(g.apply_text("0-1"));
    assert_eq!(g.board_string(), " XOX");
    assert_eq!(g.result_string(), "");
}
