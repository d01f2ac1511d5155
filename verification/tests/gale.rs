use treant_wasm::gale::{settings, Gale};
use treant_wasm::outcome::Outcome;

/// A game as the front end creates it.
fn gale_table(n: u32, pie: u32) -> Gale {
    let (n, pie) = settings(n, pie);
    let mut g = Gale::new(n);
    g.pie = pie;
    g
}

/// The first legal move, as text.
fn first_move(g: &Gale) -> Option<String> {
    g.legal_moves_string().split(',').next().filter(|m| !m.is_empty()).map(|m| m.to_string())
}

#[test]
fn crossing_lattice_count_matches_hand_derivation() {
    for n in 3..=7 {
        let g = Gale::new(n);
        assert_eq!(g.n_cross(), 2 * n * n - 2 * n + 1);
        assert_eq!(g.n_cross(), n * n + (n - 1) * (n - 1));
    }
    assert_eq!(Gale::new(5).n_cross(), 41);
    assert_eq!(Gale::new(3).n_cross(), 13);
}

#[test]
fn each_crossing_pairs_one_red_and_one_gold_edge_at_a_shared_centre() {
    let g = Gale::new(5);
    let red_world = |i: usize| ((i % (g.n + 1)) as i32 * 2, (i / (g.n + 1)) as i32 * 2 + 1);
    let gold_world = |i: usize| ((i % g.n) as i32 * 2 + 1, (i / g.n) as i32 * 2);
    for idx in 0..g.n_cross() {
        let re = g.red_edge(idx);
        let ge = g.gold_edge(idx);
        let (rax, ray) = red_world(re.0);
        let (rbx, rby) = red_world(re.1);
        let (gax, gay) = gold_world(ge.0);
        let (gbx, gby) = gold_world(ge.1);
        let rmid = (rax + rbx, ray + rby);
        let gmid = (gax + gbx, gay + gby);
        assert_eq!(rmid, gmid, "crossing {idx}: red/gold edges must share a centre");
    }
}

#[test]
fn claiming_a_crossing_blocks_the_perpendicular_edge() {
    let mut g = gale_table(3, 0);
    assert!(g.apply_text("0"));
    assert!(!g.legal_moves_string().split(',').any(|m| m == "0"));
    assert!(!g.apply_text("0"));
}

#[test]
fn red_connects_left_to_right() {
    let mut g = Gale::new(3);
    g.cross[0] = 0;
    g.cross[1] = 0;
    g.cross[2] = 0;
    assert!(g.connected(0), "row-0 horizontal bridge must join left to right");
    assert!(!g.connected(1));
    g.current = 1;
    assert_eq!(g.term(), Some(Outcome::Loss));
    g.current = 0;
    assert_eq!(g.term(), Some(Outcome::Win));
}

#[test]
fn gold_connects_top_to_bottom() {
    let mut g = Gale::new(3);
    g.cross[0] = 1;
    g.cross[3] = 1;
    g.cross[6] = 1;
    assert!(g.connected(1), "col-0 vertical bridge must join top to bottom");
    assert!(!g.connected(0));
    g.current = 0;
    assert_eq!(g.term(), Some(Outcome::Loss));
}

#[test]
fn full_board_has_exactly_one_winner() {
    let mut state = 0x1234_5678u32;
    let mut rng = || {
        state ^= state << 13;
        state ^= state >> 17;
        state ^= state << 5;
        state
    };
    for n in 3..=6 {
        for _ in 0..200 {
            let mut g = Gale::new(n);
            for i in 0..g.n_cross() {
                g.cross[i] = (rng() & 1) as i8;
            }
            assert!(g.connected(0) ^ g.connected(1), "a full Gale board (n={n}) must have exactly one winner");
        }
    }
}

#[test]
fn gale_round_trip_move_strings() {
    let mut g = gale_table(5, 0);
    for m in ["0", "13", "40"] {
        let before = g.board_string();
        assert!(g.apply_text(m), "move {m} should be legal on a fresh board");
        assert_ne!(g.board_string(), before);
    }
    let m = first_move(&g).unwrap();
    assert!(g.apply_text(&m), "legal move {m} must be applicable");
}

#[test]
fn gale_ai_plays() {
    let g = gale_table(5, 0);
    assert!(!g.available_moves().is_empty());
    assert!(first_move(&g).is_some());
}

#[test]
fn solver_resolves_a_small_endgame() {
    let mut g = gale_table(3, 0);
    for _ in 0..40 {
        if g.is_terminal() {
            break;
        }
        match first_move(&g) {
            Some(mv) => assert!(g.apply_text(&mv), "unplayable move: {mv}"),
            None => break,
        }
    }
    assert!(g.is_terminal());
    assert!(!g.result_string().is_empty(), "n=3 Gale is decisive, no draws");
}

#[test]
fn gale_winning_cells_empty_mid_game() {
    let mut g = gale_table(5, 0);
    assert_eq!(g.winning_cells_string(), "", "empty board has no bridge");
    assert!(g.apply_text("0"));
    assert_eq!(g.winning_cells_string(), "", "one crossing connects nothing");
}

#[test]
fn winning_cells_reports_the_connecting_bridge() {
    let mut g = Gale::new(3);
    g.cross[0] = 0;
    g.cross[1] = 0;
    g.cross[2] = 0;
    g.cross[6] = 0;
    assert!(g.connected(0));
    let mut got = g.winning_bridge();
    got.sort_unstable();
    assert_eq!(got, vec![0, 1, 2], "only the row-0 bridge, not the stray crossing");
    assert_eq!(g.winning_cells_string(), "0,1,2");
}

#[test]
fn transpose_is_an_involution_on_the_lattice() {
    for n in 3..=7 {
        let g = Gale::new(n);
        for idx in 0..g.n_cross() {
            assert_eq!(g.transpose(g.transpose(idx)), idx, "transpose must be its own inverse");
            assert!(g.transpose(idx) < g.n_cross(), "transpose stays on the lattice");
        }
    }
}

#[test]
fn pie_swap_recolors_the_mirrored_crossing() {
    let mut g = gale_table(5, 1);
    assert!(g.apply_text("1"));
    assert!(g.legal_moves_string().split(',').any(|m| m == "swap"));
    assert!(g.apply_text("swap"));
    let b = g.board_string();
    assert_eq!(b.chars().nth(1), Some(' '));
    assert_eq!(b.chars().nth(5), Some('O'));
    assert_eq!(g.current_player(), 0);
}

#[test]
fn gale_decline_swap_plays_normally() {
    let mut g = gale_table(5, 1);
    assert!(g.apply_text("10"));
    assert!(g.legal_moves_string().split(',').any(|m| m == "swap"));
    assert!(g.apply_text("11"));
    assert!(!g.legal_moves_string().split(',').any(|m| m == "swap"));
    assert_eq!(g.current_player(), 0);
    assert!(!g.is_terminal());
}

#[test]
fn gale_no_swap_when_pie_disabled() {
    let mut g = gale_table(5, 0);
    assert!(g.apply_text("10"));
    assert!(!g.legal_moves_string().split(',').any(|m| m == "swap"));
    assert!(!g.apply_text("swap"));
}

#[test]
fn gale_full_game_after_swap_terminates() {
    let mut g = gale_table(5, 1);
    assert!(g.apply_text("7"));
    assert!(g.apply_text("swap"));
    for _ in 0..120 {
        if g.is_terminal() {
            break;
        }
        match first_move(&g) {
            Some(mv) => assert!(g.apply_text(&mv), "unplayable move: {mv}"),
            None => break,
        }
    }
    assert!(g.is_terminal());
    assert!(!g.result_string().is_empty());
}

#[test]
fn move_texts_parse_back() {
    let mut g = gale_table(3, 1);
    assert!(!g.apply_text("13"));
    assert!(!g.apply_text("-1"));
    assert!(!g.apply_text("swap"));
    assert!(g.apply_text("+4"));
    assert_eq!(g.board_string(), "    X        ");
    assert_eq!(g.legal_moves_string(), "0,1,2,3,5,6,7,8,9,10,11,12,swap");
    assert!(g.apply_text("65535"));
    assert_eq!(g.board_string(), "    O        ");
    assert_eq!(g.ply, 2);
}

#[test]
fn gale_settings_clamp_the_table() {
    assert_eq!(settings(0, 0), (3, false));
    assert_eq!(settings(5, 1), (5, true));
    assert_eq!(settings(9, 7), (7, true));
}
