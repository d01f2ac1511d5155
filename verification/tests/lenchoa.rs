use treant_wasm::lenchoa::{
    jump_cells, layout_edges_string, move_string, neighbours, parse_move, LcMove, LenChoa, DRAW_PLY_CAP, LEOPARD, N,
    PLACE, TIGER,
};
use treant_wasm::outcome::Outcome;

fn edge_count() -> usize {
    let mut n = 0;
    for a in 0..N {
        for b in neighbours(a as u8) {
            if (a as u8) < b {
                n += 1;
            }
        }
    }
    n
}

#[test]
fn board_has_ten_points_and_fifteen_edges() {
    assert_eq!(N, 10);
    assert_eq!(edge_count(), 15, "6 drawn lines give 15 edges");
}

#[test]
fn adjacency_is_symmetric() {
    for a in 0..N {
        for b in neighbours(a as u8) {
            assert!(neighbours(b).contains(&(a as u8)), "{a}->{b} not mirrored");
        }
    }
}

#[test]
fn jump_triples_lie_on_drawn_lines_with_non_adjacent_endpoints() {
    for k in 0..9 {
        let (a, b, c) = jump_cells(k);
        assert!(neighbours(a).contains(&b), "leap {k}: a-b not an edge");
        assert!(neighbours(b).contains(&c), "leap {k}: b-c not an edge");
        assert!(!neighbours(a).contains(&c), "leap {k}: endpoints adjacent");
    }
}

#[test]
fn opening_is_leopards_placing_over_every_empty_point() {
    let g = LenChoa::new();
    assert_eq!(g.current, LEOPARD, "leopards start first");
    assert_eq!(g.grid[0], TIGER as i8, "tiger starts on the apex");
    assert_eq!(g.in_hand, 6, "six leopards in hand");
    let moves = g.gen();
    assert_eq!(moves.len(), N - 1, "9 empty points give 9 placements");
    assert!(moves.iter().all(|m| m.from == PLACE));
}

#[test]
fn tiger_leaps_and_captures_a_leopard() {
    let mut g = LenChoa::new();
    g.grid = [-1; N];
    g.grid[0] = TIGER as i8;
    g.grid[2] = LEOPARD as i8;
    g.in_hand = 0;
    g.current = TIGER;
    let leap = LcMove { from: 0, to: 5 };
    assert!(g.gen().contains(&leap), "leap 0-5 over 2 should be legal");
    g.make_move(&leap);
    assert_eq!(g.grid[5], TIGER as i8, "tiger landed on 5");
    assert_eq!(g.grid[0], -1, "tiger vacated the apex");
    assert_eq!(g.grid[2], -1, "leaped leopard removed");
    assert_eq!(g.captured, 1);
    assert_eq!(g.current, LEOPARD);
}

#[test]
fn a_piece_on_the_landing_point_blocks_the_leap() {
    let mut g = LenChoa::new();
    g.grid = [-1; N];
    g.grid[0] = TIGER as i8;
    g.grid[2] = LEOPARD as i8;
    g.grid[5] = LEOPARD as i8;
    g.in_hand = 0;
    g.current = TIGER;
    assert!(!g.gen().contains(&LcMove { from: 0, to: 5 }), "blocked landing, no leap");
}

#[test]
fn tiger_wins_at_three_captures() {
    let mut g = LenChoa::new();
    g.captured = 3;
    g.current = LEOPARD;
    assert_eq!(g.term(), Some(Outcome::Loss));
    g.current = TIGER;
    assert_eq!(g.term(), Some(Outcome::Win), "mirror perspective");
}

#[test]
fn immobilised_tiger_is_a_leopard_win() {
    let mut g = LenChoa::new();
    g.grid = [-1; N];
    g.grid[0] = TIGER as i8;
    for &p in &[1u8, 2, 3, 4, 5, 6] {
        g.grid[p as usize] = LEOPARD as i8;
    }
    g.in_hand = 0;
    g.current = TIGER;
    assert!(g.gen().is_empty(), "tiger must be fully boxed in");
    assert_eq!(g.term(), Some(Outcome::Loss), "tiger to move loses");
}

#[test]
fn lenchoa_move_encodings_round_trip() {
    assert_eq!(parse_move("7"), Some(LcMove { from: PLACE, to: 7 }));
    assert_eq!(parse_move("0-5"), Some(LcMove { from: 0, to: 5 }));
    assert_eq!(move_string(&LcMove { from: PLACE, to: 7 }), "7");
    assert_eq!(move_string(&LcMove { from: 0, to: 5 }), "0-5");
    assert!(parse_move("nope").is_none());
    assert!(parse_move("0-x").is_none());
    assert!(parse_move("10").is_none(), "point out of range");
    assert!(parse_move("3-11").is_none(), "point out of range");
}

#[test]
fn lenchoa_ply_cap_forces_a_draw() {
    let mut g = LenChoa::new();
    g.in_hand = 0;
    g.progress_ply = DRAW_PLY_CAP;
    assert_eq!(g.term(), Some(Outcome::Draw));
}

#[test]
fn layout_edges_match_adjacency() {
    let edges = layout_edges_string();
    assert_eq!(edges.split(',').count(), edge_count(), "edge count");
    assert!(edges.starts_with("0-1,0-2,0-3,1-2,1-4"));
}

#[test]
fn solver_finds_the_leopard_win_in_a_near_immobilised_position() {
    let mut s = LenChoa::new();
    s.grid = [-1; N];
    s.grid[0] = TIGER as i8;
    for &p in &[1u8, 2, 3, 4, 6] {
        s.grid[p as usize] = LEOPARD as i8;
    }
    s.in_hand = 0;
    s.current = TIGER;
    // The tiger's only move is the leap over 2 onto 5.
    assert_eq!(s.gen(), vec![LcMove { from: 0, to: 5 }]);
}

#[test]
fn lenchoa_ai_plays_a_full_game_to_terminal() {
    let mut g = LenChoa::new();
    for k in 0..400usize {
        if g.is_terminal() {
            break;
        }
        let moves = g.available_moves();
        let mv = move_string(&moves[k % moves.len()]);
        assert!(g.apply_text(&mv), "listed move rejected: {mv}");
        let on_board = g.grid.iter().filter(|v| **v == 0).count() as u32;
        assert_eq!(on_board + g.in_hand + g.captured, 6);
    }
    assert!(g.is_terminal() || !g.legal_moves_string().is_empty());
}

#[test]
fn lenchoa_board_text() {
    let mut g = LenChoa::new();
    assert_eq!(g.board_string(), "T         |6,0");
    assert!(g.apply_text("2"));
    assert_eq!(g.board_string(), "T L       |5,0");
    assert_eq!(g.legal_moves_string(), "0-1,0-3,0-5");
    assert!(g.apply_text("0-5"));
    assert_eq!(g.board_string(), "     T    |5,1");
    assert_eq!(g.result_string(), "");
}
