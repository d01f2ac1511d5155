use treant_wasm::gridlib::idx;
use treant_wasm::outcome::Outcome;
use treant_wasm::pawnduel::{table_dims, PawnDuel, PdMove};

const EMPTY: i8 = -1;

fn i(r: usize, c: usize, cols: usize) -> u16 {
    idx(r, c, cols) as u16
}

fn new_table(files: u32, ranks: u32, ds: u32, ep: u32) -> PawnDuel {
    let (c, r) = table_dims(files, ranks);
    PawnDuel::new(c, r, ds != 0, ep != 0)
}

#[test]
fn start_places_one_rank_each_on_the_edges() {
    let g = PawnDuel::new(8, 6, true, true);
    assert!((0..8).all(|c| g.board[idx(5, c, 8)] == 0));
    assert!((0..8).all(|c| g.board[idx(0, c, 8)] == 1));
    assert_eq!(g.count(0), 8);
    assert_eq!(g.count(1), 8);
    assert_eq!(g.current, 0, "seat 0 moves first");
}

#[test]
fn double_step_only_from_the_starting_rank() {
    let g = PawnDuel::new(4, 6, true, false);
    let from = i(5, 0, 4);
    let ms = g.gen();
    assert!(ms.contains(&PdMove { from, to: i(4, 0, 4) }), "single step");
    assert!(ms.contains(&PdMove { from, to: i(3, 0, 4) }), "double step from start rank");
    let mut g2 = g.clone();
    g2.make_move(&PdMove { from, to: i(4, 0, 4) });
    g2.current = 0;
    let ms2 = g2.gen();
    assert!(ms2.contains(&PdMove { from: i(4, 0, 4), to: i(3, 0, 4) }), "single step still legal");
    assert!(!ms2.contains(&PdMove { from: i(4, 0, 4), to: i(2, 0, 4) }), "no double step off the start rank");
}

#[test]
fn double_step_disabled_offers_only_single() {
    let g = PawnDuel::new(4, 6, false, false);
    let from = i(5, 0, 4);
    let ms = g.gen();
    assert!(ms.contains(&PdMove { from, to: i(4, 0, 4) }));
    assert!(!ms.contains(&PdMove { from, to: i(3, 0, 4) }), "double step off when knob is 0");
}

#[test]
fn diagonal_capture_only() {
    let mut g = PawnDuel::new(4, 6, false, false);
    g.board = vec![EMPTY; 24];
    g.board[idx(3, 1, 4)] = 0;
    g.board[idx(2, 0, 4)] = 1;
    g.board[idx(2, 1, 4)] = 1;
    g.board[idx(2, 2, 4)] = 1;
    g.current = 0;
    let ms: Vec<_> = g.gen().into_iter().filter(|m| m.from == i(3, 1, 4)).collect();
    assert!(ms.contains(&PdMove { from: i(3, 1, 4), to: i(2, 0, 4) }));
    assert!(ms.contains(&PdMove { from: i(3, 1, 4), to: i(2, 2, 4) }));
    assert!(!ms.iter().any(|m| m.to == i(2, 1, 4)), "no straight-forward capture");
    assert_eq!(ms.len(), 2);
}

#[test]
fn en_passant_window_is_exactly_one_ply_and_removes_the_passed_pawn() {
    let mut g = PawnDuel::new(4, 5, true, true);
    g.board = vec![EMPTY; 20];
    g.board[idx(0, 2, 4)] = 1;
    g.board[idx(2, 1, 4)] = 0;
    g.board[idx(4, 3, 4)] = 0;
    g.current = 1;
    g.make_move(&PdMove { from: i(0, 2, 4), to: i(2, 2, 4) });
    assert_eq!(g.ep_target, Some(i(1, 2, 4)), "the crossed square is armed");
    assert_eq!(g.current, 0);
    let ep = PdMove { from: i(2, 1, 4), to: i(1, 2, 4) };
    assert!(g.gen().contains(&ep), "en passant offered on the very next ply");
    let mut done = g.clone();
    done.make_move(&ep);
    assert_eq!(done.board[idx(1, 2, 4)], 0);
    assert_eq!(done.board[idx(2, 2, 4)], EMPTY, "the passed pawn is removed");
    assert_eq!(done.ep_target, None, "window closes after use");
    let mut lapsed = g.clone();
    lapsed.make_move(&PdMove { from: i(4, 3, 4), to: i(3, 3, 4) });
    assert_eq!(lapsed.ep_target, None, "an unrelated move disarms the window");
    lapsed.current = 0;
    assert!(!lapsed.gen().contains(&ep), "en passant is no longer available a ply later");
}

fn seeded_position() -> PawnDuel {
    let mut s = PawnDuel::new(4, 5, true, true);
    s.board = vec![EMPTY; 20];
    s.board[idx(0, 2, 4)] = 1;
    s.board[idx(2, 1, 4)] = 0;
    s.board[idx(4, 3, 4)] = 0;
    s.current = 1;
    s
}

#[test]
fn replay_reconstructs_en_passant_state() {
    let mut src = seeded_position();
    let log = [format!("{}-{}", i(0, 2, 4), i(2, 2, 4)), format!("{}-{}", i(2, 1, 4), i(1, 2, 4))];
    assert_eq!(log, ["2-10".to_string(), "9-6".to_string()]);
    for m in &log {
        assert!(src.apply_text(m), "log move {m} must apply on the live engine");
    }
    let live_board = src.board_string();
    let mut fresh = seeded_position();
    for m in &log {
        assert!(fresh.apply_text(m), "replay move {m} must re-validate (ep window reconstructed)");
    }
    assert_eq!(fresh.board_string(), live_board);
    assert_eq!(fresh.board_string().chars().nth(idx(2, 2, 4)), Some(' '));
}

#[test]
fn promotion_wins() {
    let mut g = PawnDuel::new(4, 6, false, false);
    g.board = vec![EMPTY; 24];
    g.board[idx(1, 2, 4)] = 0;
    g.board[idx(3, 0, 4)] = 1;
    g.current = 0;
    g.make_move(&PdMove { from: i(1, 2, 4), to: i(0, 2, 4) });
    assert_eq!(g.term(), Some(Outcome::Loss), "seat 1 to move now, and it has lost");
    assert_eq!(g.winning_cell(), Some(idx(0, 2, 4)), "glow the promotion square");
}

#[test]
fn capturing_all_enemy_pawns_wins() {
    let mut g = PawnDuel::new(4, 6, false, false);
    g.board = vec![EMPTY; 24];
    g.board[idx(3, 1, 4)] = 0;
    g.board[idx(2, 2, 4)] = 1;
    g.current = 0;
    g.make_move(&PdMove { from: i(3, 1, 4), to: i(2, 2, 4) });
    assert_eq!(g.count(1), 0);
    assert_eq!(g.term(), Some(Outcome::Loss));
    assert_eq!(g.winning_cell(), None, "elimination has no line to glow");
}

#[test]
fn stalemate_is_a_loss_not_a_draw() {
    let mut g = PawnDuel::new(3, 5, false, false);
    g.board = vec![EMPTY; 15];
    g.board[idx(2, 0, 3)] = 0;
    g.board[idx(1, 0, 3)] = 1;
    g.board[idx(4, 2, 3)] = 1;
    g.current = 0;
    assert!(g.gen().is_empty(), "the mover is stuck");
    assert_eq!(g.term(), Some(Outcome::Loss), "stuck mover LOSES");
    assert_eq!(g.result_string(), "2", "seat 1 (the other player) wins");
}

#[test]
fn pawnduel_round_trip_move_strings() {
    let mut g = new_table(4, 6, 1, 1);
    let before = g.board_string();
    let first = g.legal_moves_string().split(',').next().unwrap().to_string();
    assert!(first.contains('-'));
    assert!(g.apply_text(&first));
    assert_ne!(g.board_string(), before);
    assert!(!g.apply_text("999-0"));
    assert!(!g.apply_text("pawn"));
    assert!(!g.apply_text("1-2-3"));
}

fn mover_wins(s: &PawnDuel) -> bool {
    if s.term().is_some() {
        return false;
    }
    s.gen().iter().any(|m| {
        let mut c = s.clone();
        c.make_move(m);
        !mover_wins(&c)
    })
}

#[test]
fn hexapawn_3x3_is_a_second_player_win_minimax() {
    let g = PawnDuel::new(3, 3, false, false);
    assert_eq!(g.count(0), 3);
    assert_eq!(g.count(1), 3);
    assert!(!mover_wins(&g), "the first player loses 3x3 Hexapawn");
}

#[test]
fn solver_proves_hexapawn_second_player_win() {
    // Best play by exhaustive search over the library's own rules reaches a
    // second-player win.
    let mut g = new_table(3, 3, 0, 0);
    assert_eq!(g.board_string(), "OOO   XXX");
    for _ in 0..12 {
        if g.term().is_some() {
            break;
        }
        let moves = g.gen();
        let best = moves
            .iter()
            .find(|m| {
                let mut c = g.clone();
                c.make_move(m);
                !mover_wins(&c)
            })
            .or(moves.first())
            .copied()
            .unwrap();
        assert!(g.apply_text(&best.encode()));
    }
    assert!(g.term().is_some());
    assert_eq!(g.result_string(), "2");
}

#[test]
fn pawnduel_ai_plays() {
    let mut g = new_table(8, 6, 1, 1);
    let m = g.legal_moves_string().split(',').next().unwrap().to_string();
    assert!(g.apply_text(&m));
}

#[test]
fn full_games_terminate_and_are_decisive() {
    for (f, r, ds, ep) in [(3u32, 3u32, 0u32, 0u32), (8, 6, 1, 1), (4, 5, 1, 1), (10, 8, 1, 1), (5, 5, 0, 1)] {
        let mut g = new_table(f, r, ds, ep);
        let cap = (f * r) as usize * 4 + 20;
        for k in 0..cap {
            if g.term().is_some() {
                break;
            }
            let moves: Vec<String> = g.legal_moves_string().split(',').map(|s| s.to_string()).collect();
            let mv = moves[k % moves.len()].clone();
            assert!(g.apply_text(&mv), "engine emitted an unplayable move: {mv}");
        }
        assert!(g.term().is_some(), "({f},{r},{ds},{ep}) must terminate");
        assert!(!g.result_string().is_empty(), "Pawn Duel is decisive");
    }
}

// Further cases.

#[test]
fn pawnduel_dims_and_eval() {
    assert_eq!(table_dims(1, 20), (3, 8));
    let g = PawnDuel::new(3, 3, false, false);
    assert_eq!(g.eval0(), 0);
    assert_eq!(g.eval_for(1), 0);
    assert_eq!(g.current_player(), 0);
}
