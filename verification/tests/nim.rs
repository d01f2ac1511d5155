use treant_wasm::nim::{build_heaps, eval_for, parse_nim_move, Nim, NimMove, Player};
use treant_wasm::outcome::Outcome;

fn total(g: &Nim) -> u32 {
    g.board_string().split(',').map(|s| s.parse::<u32>().unwrap()).sum()
}

#[test]
fn heap_generation_marienbad() {
    let g = Nim::new(7, 4, 0, 1);
    assert_eq!(g.board_string(), "7,5,3,1");
}

#[test]
fn heap_generation_floor_one() {
    let g = Nim::new(3, 5, 0, 0);
    assert_eq!(g.board_string(), "3,1,1,1,1");
}

#[test]
fn clamps() {
    let g = Nim::new(999, 99, 999, 0);
    assert_eq!(g.board_string().split(',').count(), 8);
    assert_eq!(g.board_string().split(',').next().unwrap(), "60");
}

#[test]
fn single_pile_regression_legal_moves() {
    let g = Nim::new(15, 1, 2, 0);
    assert_eq!(g.board_string(), "15");
    assert_eq!(g.legal_moves_string(), "0-1,0-2");
}

#[test]
fn single_pile_last_stone_only_take1() {
    let g = Nim::new(1, 1, 2, 0);
    assert_eq!(g.legal_moves_string(), "0-1");
}

#[test]
fn max_take_bounds_moves() {
    let g = Nim::new(5, 1, 3, 0);
    assert_eq!(g.legal_moves_string(), "0-1,0-2,0-3");
}

#[test]
fn unbounded_take_whole_heap() {
    let g = Nim::new(4, 1, 0, 0);
    assert_eq!(g.legal_moves_string(), "0-1,0-2,0-3,0-4");
}

#[test]
fn move_round_trip() {
    let g = Nim::new(7, 4, 0, 1);
    let moves: Vec<&str> = "7,5,3,1".split(',').collect();
    assert_eq!(g.board_string().split(',').collect::<Vec<_>>(), moves);
    for tok in g.legal_moves_string().split(',') {
        let parsed: NimMove = parse_nim_move(tok).expect("token parses");
        assert_eq!(parsed.encode(), tok, "round-trips to the same token");
        let mut clone = Nim::new(7, 4, 0, 1);
        assert!(clone.apply_text(tok), "apply accepts generated token {tok}");
    }
}

#[test]
fn normal_terminal_taker_wins() {
    let mut g = Nim::new(2, 1, 2, 0);
    assert!(g.apply_text("0-2"));
    assert!(g.is_terminal());
    assert_eq!(g.result_string(), "1", "taker of the last stone wins in normal play");
}

#[test]
fn misere_terminal_taker_loses() {
    let mut g = Nim::new(2, 1, 2, 1);
    assert!(g.apply_text("0-2"));
    assert!(g.is_terminal());
    assert_eq!(g.result_string(), "2", "taker of the last stone loses in misère");
}

#[test]
fn apply_move_fallback_path() {
    let mut g = Nim::new(5, 1, 2, 0);
    assert!(g.apply_text("0-2"));
    assert_eq!(g.board_string(), "3");
    assert_eq!(g.current_player_text(), "P2");
}

#[test]
fn apply_move_fast_path_after_search() {
    let mut g = Nim::new(4, 1, 2, 0);
    assert!(g.apply_text("0-1"));
    assert_eq!(g.board_string(), "3");
    assert_eq!(g.current_player_text(), "P2");
}

#[test]
fn play_single_pile_to_terminal() {
    let mut g = Nim::new(3, 1, 2, 0);
    assert!(g.apply_text("0-1"));
    assert!(g.apply_text("0-2"));
    assert!(g.is_terminal());
    assert!(!g.apply_text("0-1"), "no legal move once the pile is empty");
    assert_eq!(total(&g), 0);
}

#[test]
fn rejects_illegal_and_malformed_moves() {
    let mut g = Nim::new(5, 1, 2, 0);
    assert!(!g.apply_text("0-3"), "count beyond max_take is illegal");
    assert!(!g.apply_text("1-1"), "no heap index 1 in a single-heap game");
    assert!(!g.apply_text("Take1"), "old move format no longer parses");
    assert!(!g.apply_text("garbage"));
    assert_eq!(g.board_string(), "5");
}

#[test]
fn solver_proves_single_pile() {
    // Takes of 1-2: a pile of 4 is won by taking 1 (leaving 3); on a pile of 3 every
    // take leaves a pile the opponent clears.
    let mut win = Nim::new(4, 1, 2, 0);
    assert!(win.apply_text("0-1"));
    for reply in ["0-1", "0-2"] {
        let mut g = win.clone();
        assert!(g.apply_text(reply));
        let rest = g.board_string();
        assert!(g.apply_text(&format!("0-{rest}")));
        assert_eq!(g.terminal_value(), Some(Outcome::Loss));
        assert_eq!(g.result_string(), "1");
    }
    for first in ["0-1", "0-2"] {
        let mut g = Nim::new(3, 1, 2, 0);
        assert!(g.apply_text(first));
        let rest = g.board_string();
        assert!(g.apply_text(&format!("0-{rest}")));
        assert_eq!(g.result_string(), "2");
    }
}

#[test]
fn misere_single_pile_verdict() {
    let mut g = Nim::new(1, 1, 2, 1);
    assert!(g.apply_text("0-1"));
    assert!(g.is_terminal());
    assert_eq!(g.result_string(), "2");
}

// Further cases.

#[test]
fn nim_values_and_parsing() {
    assert_eq!(build_heaps(0, 2), vec![0, 1]);
    assert_eq!(parse_nim_move("300-1"), None);
    assert_eq!(parse_nim_move("1-2-3"), None);
    assert_eq!(parse_nim_move("+1-2"), Some(NimMove { heap: 1, count: 2 }));
    let g = Nim::new(2, 1, 2, 1);
    assert_eq!(g.terminal_value(), None);
    assert_eq!(g.winner(), None);
    assert_eq!(eval_for(Some(Player::P1), Player::P1), 100);
    assert_eq!(eval_for(Some(Player::P2), Player::P1), -100);
    assert_eq!(eval_for(None, Player::P2), 0);
    assert_eq!(g.total_stones(), 2);
    assert_eq!(g.cap(9), 2);
}
