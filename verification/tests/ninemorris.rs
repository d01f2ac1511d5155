use treant_wasm::ninemorris::{
    forms_mill, mill_cells, move_string, parse_move, removable, settings, NineMorris, NmMove, DRAW_PLY_CAP, NONE,
    N_POINTS, PLACE,
};
use treant_wasm::outcome::Outcome;

/// A game as the front end creates it.
fn morris_table(men: u32, flying: u32, lasker: u32) -> NineMorris {
    let (men, flying, lasker) = settings(men, flying, lasker);
    NineMorris::new(men, flying, lasker)
}

#[test]
fn all_sixteen_mills_detected() {
    for k in 0..16 {
        let (a, b, c) = mill_cells(k);
        let mill = [a, b, c];
        let mut board = [-1i8; N_POINTS];
        for &p in &mill {
            board[p as usize] = 0;
        }
        for &p in &mill {
            assert!(forms_mill(&board, p, 0), "mill {mill:?} not detected at {p}");
        }
        assert!(!forms_mill(&board, mill[0], 1));
    }
}

#[test]
fn opening_generates_all_placements_no_mills() {
    let g = NineMorris::new(9, false, false);
    let moves = g.gen();
    assert_eq!(moves.len(), N_POINTS);
    assert!(moves.iter().all(|m| m.from == PLACE && m.victim == NONE));
}

#[test]
fn placing_into_a_mill_generates_removal_variants() {
    let mut g = NineMorris::new(9, false, false);
    g.board[0] = 0;
    g.board[1] = 0;
    g.board[9] = 1;
    g.board[10] = 1;
    g.placed = [2, 2];
    g.on_board = [2, 2];
    let mills: Vec<NmMove> = g.gen().into_iter().filter(|m| m.to == 2).collect();
    assert_eq!(mills.len(), 2, "one move per removable victim");
    let victims: Vec<u8> = mills.iter().map(|m| m.victim).collect();
    assert!(victims.contains(&9) && victims.contains(&10));

    let m = *mills.iter().find(|m| m.victim == 9).unwrap();
    g.make_move(&m);
    assert_eq!(g.board[2], 0);
    assert_eq!(g.board[9], -1);
    assert_eq!(g.on_board[1], 1);
    assert_eq!(g.current, 1);
}

#[test]
fn removal_prefers_men_not_in_a_mill() {
    let mut board = [-1i8; N_POINTS];
    board[0] = 0;
    board[1] = 0;
    board[2] = 0;
    board[21] = 1;
    board[22] = 1;
    board[23] = 1;
    board[5] = 1;
    let victims = removable(&board, 1);
    assert_eq!(victims, vec![5]);
}

#[test]
fn ninemorris_move_encodings_round_trip() {
    assert_eq!(parse_move("p7"), Some(NmMove { from: PLACE, to: 7, victim: NONE }));
    assert_eq!(parse_move("p7x12"), Some(NmMove { from: PLACE, to: 7, victim: 12 }));
    assert_eq!(parse_move("3-7"), Some(NmMove { from: 3, to: 7, victim: NONE }));
    assert_eq!(parse_move("3-7x12"), Some(NmMove { from: 3, to: 7, victim: 12 }));
    assert_eq!(move_string(&NmMove { from: PLACE, to: 7, victim: NONE }), "p7");
    assert_eq!(move_string(&NmMove { from: 3, to: 7, victim: 12 }), "3-7x12");
    assert!(parse_move("garbage").is_none());
}

#[test]
fn reduced_to_two_men_is_a_loss_for_the_player_to_move() {
    let mut g = NineMorris::new(9, false, false);
    g.placed = [9, 9];
    g.board[0] = 0;
    g.board[1] = 0;
    g.board[5] = 1;
    g.board[6] = 1;
    g.board[7] = 1;
    g.on_board = [2, 3];
    g.current = 0;
    assert_eq!(g.term(), Some(Outcome::Loss));
}

#[test]
fn no_legal_move_is_a_loss() {
    let mut g = NineMorris::new(3, false, false);
    g.placed = [3, 3];
    g.board[0] = 0;
    g.board[3] = 0;
    g.board[6] = 0;
    g.board[1] = 1;
    g.board[9] = 1;
    g.board[4] = 1;
    g.board[10] = 1;
    g.board[7] = 1;
    g.board[11] = 1;
    g.on_board = [3, 6];
    g.current = 0;
    assert!(g.gen().is_empty());
    assert_eq!(g.term(), Some(Outcome::Loss));
}

#[test]
fn draw_after_progress_stall() {
    let mut g = NineMorris::new(9, false, false);
    g.placed = [9, 9];
    g.on_board = [4, 4];
    g.progress_ply = DRAW_PLY_CAP;
    assert_eq!(g.term(), Some(Outcome::Draw));
}

#[test]
fn ninemorris_ai_plays() {
    let g = morris_table(9, 0, 0);
    assert!(!g.available_moves().is_empty());
}

#[test]
fn ninemorris_ai_plays_a_full_game_to_terminal() {
    // Self-play by the first listed move: it terminates or keeps having moves.
    let mut g = morris_table(6, 0, 0);
    for _ in 0..400 {
        if g.is_terminal() {
            break;
        }
        let mv = g.legal_moves_string().split(',').next().unwrap().to_string();
        assert!(g.apply_text(&mv), "listed move rejected: {mv}");
    }
    assert!(g.is_terminal() || !g.legal_moves_string().is_empty());
}

#[test]
fn lasker_offers_slides_during_placement() {
    let mut g = morris_table(10, 0, 1);
    assert!(g.apply_text("p0"));
    assert!(g.apply_text("p12"));
    let moves = g.legal_moves_string();
    assert!(moves.split(',').any(|m| m.contains('-')), "expected a slide move, got {moves}");
    assert!(moves.split(',').any(|m| m.starts_with('p')), "expected a placement, got {moves}");
}

#[test]
fn non_lasker_offers_no_slides_during_placement() {
    let mut g = morris_table(10, 0, 0);
    assert!(g.apply_text("p0"));
    assert!(g.apply_text("p12"));
    let moves = g.legal_moves_string();
    assert!(!moves.split(',').any(|m| m.contains('-')), "classic mode must not offer slides while placing, got {moves}");
}

#[test]
fn lasker_reduced_to_two_before_placement_done_is_not_a_loss() {
    let mut g = NineMorris::new(10, false, true);
    g.placed = [3, 3];
    g.on_board = [2, 3];
    g.board[0] = 0;
    g.board[1] = 0;
    g.board[5] = 1;
    g.board[6] = 1;
    g.board[7] = 1;
    g.current = 0;
    assert_eq!(g.term(), None, "still has men in hand, not a loss");
    g.placed = [10, 10];
    assert_eq!(g.term(), Some(Outcome::Loss));
}

#[test]
fn lasker_ai_plays_a_full_game_to_terminal() {
    let mut g = morris_table(10, 0, 1);
    for _ in 0..400 {
        if g.is_terminal() {
            break;
        }
        let mv = g.legal_moves_string().split(',').next().unwrap().to_string();
        assert!(g.apply_text(&mv), "listed move rejected: {mv}");
    }
    assert!(g.is_terminal() || !g.legal_moves_string().is_empty());
}

#[test]
fn board_text_shows_the_phase() {
    let mut g = morris_table(3, 0, 0);
    assert_eq!(g.board_string(), format!("{}|place:3,3", " ".repeat(24)));
    assert!(g.apply_text("p0"));
    assert!(g.apply_text("p23"));
    let b = g.board_string();
    assert!(b.starts_with('X'));
    assert!(b.ends_with("O|place:2,2"));
    assert_eq!(g.result_string(), "");
    let mut h = morris_table(3, 0, 0);
    h.placed = [3, 3];
    assert!(h.board_string().ends_with("|slide"));
    assert_eq!(h.result_string(), "2");
}

#[test]
fn men_on_board_stay_counted() {
    let mut g = morris_table(4, 1, 0);
    for _ in 0..200 {
        if g.is_terminal() {
            break;
        }
        let moves = g.available_moves();
        let m = moves[moves.len() / 2];
        assert!(g.apply_text(&move_string(&m)));
        for p in 0..2i8 {
            let n = g.board.iter().filter(|v| **v == p).count();
            assert_eq!(n, g.on_board[p as usize] as usize);
        }
    }
}
