use treant_wasm::gridpack::{
    board_string, parse_cell, parse_oc_move, result_str, table_side, Connect6, Notakto, OcMove, OrderChaos, SquareUp,
    Squava,
};
use treant_wasm::outcome::Outcome;

#[test]
fn squava_three_in_a_row_loses() {
    let mut g = Squava::new(table_side(5), table_side(5));
    for m in ["0", "24", "1", "23", "2"] {
        assert!(g.apply_text(m), "move {m}");
    }
    assert!(g.term().is_some());
    assert_eq!(g.result_string(), "2");
}

#[test]
fn notakto_completing_line_loses() {
    let mut g = Notakto::new(3, 3);
    for m in ["0", "3", "1", "4", "2"] {
        assert!(g.apply_text(m), "move {m}");
    }
    assert!(g.term().is_some());
    assert_eq!(g.result_string(), "2");
}

#[test]
fn order_wins_on_a_line() {
    let mut g = OrderChaos::new(5, 5);
    let seq = [("0", 0), ("10", 1), ("1", 0), ("11", 1), ("2", 0), ("12", 1), ("3", 0), ("13", 1), ("4", 0)];
    for (cell, sym) in seq {
        assert!(g.apply_text(&format!("{cell},{sym}")), "{cell},{sym}");
    }
    assert!(g.term().is_some());
    assert_eq!(g.result_string(), "1");
}

#[test]
fn square_up_detects_a_square() {
    let mut g = SquareUp::new(4, 4);
    for m in ["0", "8", "1", "9", "4", "10", "5"] {
        assert!(g.apply_text(m), "move {m}");
    }
    assert!(g.term().is_some());
    assert_eq!(g.result_string(), "1");
}

#[test]
fn result_is_empty_while_in_progress() {
    let mut g = Notakto::new(3, 3);
    assert_eq!(g.result_string(), "", "fresh board");
    assert!(g.term().is_none());
    assert!(g.apply_text("0"));
    assert_eq!(g.result_string(), "", "after one move");
    assert!(g.term().is_none());
}

#[test]
fn connect6_result_maps_to_bare_winner_digit() {
    let mut g = Connect6::new(9, 9);
    let moves = ["0", "40", "41", "1", "2", "42", "43", "3", "4", "44", "45", "5"];
    for m in moves {
        assert_eq!(g.result_string(), "", "still in progress before {m}");
        assert!(g.apply_text(m), "move {m}");
    }
    assert!(g.term().is_some());
    assert_eq!(g.result_string(), "1");
}

#[test]
fn connect6_two_placements_per_turn() {
    let mut g = Connect6::new(9, 9);
    assert!(g.apply_text("0"));
    assert_eq!(g.current_player(), 1);
    assert!(g.apply_text("80"));
    assert_eq!(g.current_player(), 1, "white still has a second stone");
    assert!(g.apply_text("79"));
    assert_eq!(g.current_player(), 0, "back to black");
}

// Further cases.

#[test]
fn gridpack_text_helpers() {
    assert_eq!(board_string(&[-1, 0, 1, 2, 3, 4]), " XOAB?");
    assert_eq!(result_str(Some(Outcome::Win), 1), "2");
    assert_eq!(result_str(Some(Outcome::Loss), 1), "1");
    assert_eq!(result_str(Some(Outcome::Draw), 0), "Draw");
    assert_eq!(result_str(None, 0), "");
    assert_eq!(parse_cell("8", 3, 3), Some(8));
    assert_eq!(parse_cell("9", 3, 3), None);
    assert_eq!(parse_oc_move("4,1", 3, 3), Some(OcMove { cell: 4, sym: 1 }));
    assert_eq!(parse_oc_move("4,2", 3, 3), None);
    assert_eq!(parse_oc_move("4,1,0", 3, 3), None);
    assert_eq!(table_side(1), 3);
    assert_eq!(table_side(40), 12);
}

#[test]
fn gridpack_evals_and_moves() {
    let g = OrderChaos::new(3, 3);
    assert_eq!(g.available_moves().len(), 18);
    assert_eq!(g.eval0(), 0);
    let c = Connect6::new(6, 6);
    assert_eq!(c.eval0(), 0);
    let mut s = SquareUp::new(3, 3);
    assert_eq!(s.eval0(), 0);
    assert!(s.apply_text("4"));
    assert!(s.eval0() > 0, "the centre stone counts for the first player");
    let mut n = Notakto::new(3, 3);
    assert!(n.apply_text("4"));
    assert_eq!(n.board_string(), "    X    ");
    assert!(!n.apply_text("4"));
    let mut q = Squava::new(4, 4);
    assert_eq!(q.available_moves().len(), 16);
    q.make_move(&5);
    assert_eq!(q.board_string(), "     X          ");
}
