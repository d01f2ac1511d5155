use treant_wasm::draughts::{Cell, DMove, Draughts, DRAW_PLIES};
use treant_wasm::outcome::Outcome;
use rand::rngs::SmallRng;
use rand::{Rng, SeedableRng};

// Flag presets: (size, men_rows, flying, men_back, max_capture, promote_mid,
// misere, men_no_king, capture_priority) — mirrors the module-doc table. The
// six wave-A variants carry the two new flags as `false, 0` (bit-identity bar).
type Preset = (usize, usize, bool, bool, bool, bool, bool, bool, u8);
const AMERICAN: Preset = (8, 3, false, false, false, false, false, false, 0);
const INTERNATIONAL: Preset = (10, 4, true, true, true, false, false, false, 0);
const BRAZILIAN: Preset = (8, 3, true, true, true, false, false, false, 0);
const POOL: Preset = (8, 3, true, true, false, false, false, false, 0);
const RUSSIAN: Preset = (8, 3, true, true, false, true, false, false, 0);
const GIVEAWAY: Preset = (8, 3, false, false, false, false, true, false, 0);
// Wave-B: Spanish (flying, forward-only men, priority=1); Italian (non-flying
// step-1 kings, men-cannot-capture-kings, priority=2). max_capture is passed 0
// here to prove the ctor normalizes it on for priority > 0.
const SPANISH: Preset = (8, 3, true, false, false, false, false, false, 1);
const ITALIAN: Preset = (8, 3, false, false, false, false, false, true, 2);

fn mk(p: Preset) -> Draughts {
    Draughts::new(p.0, p.1, p.2, p.3, p.4, p.5, p.6, p.7, p.8)
}
/// An empty wave-A board with the given flags (new flags off; hand-built
/// positions). Spanish/Italian positions use `empty_ex`.
fn empty(n: usize, flying: bool, men_back: bool, max_capture: bool, promote_mid: bool, misere: bool) -> Draughts {
    empty_ex(n, flying, men_back, max_capture, promote_mid, misere, false, 0)
}
/// An empty board with ALL nine flags (for Spanish/Italian hand-built tests).
#[allow(clippy::too_many_arguments)]
fn empty_ex(n: usize, flying: bool, men_back: bool, max_capture: bool, promote_mid: bool, misere: bool, men_no_king: bool, capture_priority: u8) -> Draughts {
    let mut g = Draughts::new(n, 1, flying, men_back, max_capture, promote_mid, misere, men_no_king, capture_priority);
    g.grid = vec![Cell::Empty; n * n];
    g
}
fn rc(g: &Draughts, r: usize, c: usize) -> usize {
    r * g.n + c
}
fn set(g: &mut Draughts, r: usize, c: usize, cell: Cell) {
    let i = rc(g, r, c);
    g.grid[i] = cell;
}

#[test]
fn variant_setups_have_the_right_piece_counts() {
    // American/Brazilian/Pool/Russian/Giveaway: 8×8, 3 rows → 12 men/side.
    for p in [AMERICAN, BRAZILIAN, POOL, RUSSIAN, GIVEAWAY] {
        let g = mk(p);
        assert_eq!(g.grid.iter().filter(|&&c| c == Cell::Man(0)).count(), 12);
        assert_eq!(g.grid.iter().filter(|&&c| c == Cell::Man(1)).count(), 12);
    }
    // International: 10×10, 4 rows → 20 men/side.
    let g = mk(INTERNATIONAL);
    assert_eq!(g.grid.iter().filter(|&&c| c == Cell::Man(0)).count(), 20);
    assert_eq!(g.grid.iter().filter(|&&c| c == Cell::Man(1)).count(), 20);
}

#[test]
fn variant_flags_match_the_table() {
    // Guard the exact flag tuple per variant so the table can't silently drift.
    // The six wave-A variants MUST carry the two new flags as `false, 0` — this
    // is the bit-identity contract (see also `wave_a_flags_leave_new_paths_off`).
    assert_eq!(AMERICAN, (8, 3, false, false, false, false, false, false, 0));
    assert_eq!(INTERNATIONAL, (10, 4, true, true, true, false, false, false, 0));
    assert_eq!(BRAZILIAN, (8, 3, true, true, true, false, false, false, 0));
    assert_eq!(POOL, (8, 3, true, true, false, false, false, false, 0));
    assert_eq!(RUSSIAN, (8, 3, true, true, false, true, false, false, 0));
    assert_eq!(GIVEAWAY, (8, 3, false, false, false, false, true, false, 0));
    // Wave-B variants (Spanish ⭐ / Italian).
    assert_eq!(SPANISH, (8, 3, true, false, false, false, false, false, 1));
    assert_eq!(ITALIAN, (8, 3, false, false, false, false, false, true, 2));
}

#[test]
fn american_opening_has_seven_moves() {
    // Standard checkers opening: 7 legal first moves for the side to move.
    let g = mk(AMERICAN);
    assert_eq!(g.gen().len(), 7);
    assert!(g.gen().iter().all(|m| m.captured.is_empty()));
}

#[test]
fn captures_are_forced_when_available() {
    // A lone seat-0 man with a jump available: the only legal moves are jumps.
    let mut g = empty(8, false, false, false, false, false);
    set(&mut g, 5, 2, Cell::Man(0));
    set(&mut g, 4, 1, Cell::Man(1));
    // (3,0) is empty → jump legal.
    let moves = g.gen();
    assert!(!moves.is_empty());
    assert!(moves.iter().all(|m| !m.captured.is_empty()), "captures must be forced");
}

#[test]
fn multi_jump_is_one_atomic_chain() {
    // Double jump (5,2)->(3,0)->(1,2): a single move with a 3-cell path.
    let mut g = empty(8, false, false, false, false, false);
    set(&mut g, 5, 2, Cell::Man(0));
    set(&mut g, 4, 1, Cell::Man(1));
    set(&mut g, 2, 1, Cell::Man(1));
    let moves = g.gen();
    assert_eq!(moves.len(), 1);
    assert_eq!(moves[0].path, vec![rc(&g, 5, 2) as u16, rc(&g, 3, 0) as u16, rc(&g, 1, 2) as u16]);
    assert_eq!(moves[0].captured.len(), 2);
}

#[test]
fn max_capture_filters_to_the_longest_chain() {
    // Piece A can capture 2, piece B can capture 1. International (max_capture)
    // must offer ONLY A's 2-chain; Pool (no max) offers both.
    fn setup(g: &mut Draughts) {
        set(g, 5, 2, Cell::Man(0)); // A: double-jumper
        set(g, 4, 1, Cell::Man(1));
        set(g, 2, 1, Cell::Man(1));
        set(g, 5, 6, Cell::Man(0)); // B: single-jumper
        set(g, 4, 5, Cell::Man(1));
    }
    let mut intl = empty(8, true, true, true, false, false);
    setup(&mut intl);
    let mi = intl.gen();
    assert_eq!(mi.len(), 1, "max-capture keeps only the longest");
    assert_eq!(mi[0].captured.len(), 2);

    let mut pool = empty(8, true, true, false, false, false);
    setup(&mut pool);
    let mp = pool.gen();
    assert_eq!(mp.len(), 2, "no max-capture keeps both chains");
}

#[test]
fn flying_king_captures_at_a_distance_and_lands_beyond() {
    // Flying king at (7,0), enemy at (5,2): the king may land on ANY empty
    // square beyond the captured man ((4,3),(3,4),(2,5),(1,6),(0,7)).
    let mut g = empty(8, true, true, false, false, false);
    set(&mut g, 7, 0, Cell::King(0));
    set(&mut g, 5, 2, Cell::Man(1));
    let moves = g.gen();
    assert!(!moves.is_empty());
    // Every move captures the one man and lands strictly beyond it.
    assert!(moves.iter().all(|m| m.captured == vec![rc(&g, 5, 2) as u16]));
    let landings: Vec<usize> = moves.iter().map(|m| *m.path.last().unwrap() as usize).collect();
    assert!(landings.contains(&rc(&g, 4, 3)));
    assert!(landings.contains(&rc(&g, 0, 7)), "a flying king can choose a far landing");
}

#[test]
fn turkish_stroke_each_piece_jumped_once_and_captured_pieces_block() {
    // A flying king loops a 4-man square, capturing each exactly once. The
    // Turkish-stroke rule: "jumped pieces are ... removed only after the
    // entire multi-jump move is complete" and "The same piece may not be
    // jumped more than once." (International_draughts). Captured pieces stay
    // on the board as blockers, so the loop cannot re-cross a jumped man.
    let mut g = empty(8, true, true, false, false, false);
    set(&mut g, 5, 2, Cell::King(0));
    set(&mut g, 4, 3, Cell::Man(1));
    set(&mut g, 2, 3, Cell::Man(1));
    set(&mut g, 2, 1, Cell::Man(1));
    set(&mut g, 4, 1, Cell::Man(1));
    let moves = g.gen();
    // The maximal chain captures all four, returns to the start square, and
    // jumps no piece twice.
    let best = moves.iter().map(|m| m.captured.len()).max().unwrap();
    assert_eq!(best, 4, "the king rounds the whole square");
    let full = moves.iter().find(|m| m.captured.len() == 4).unwrap();
    assert_eq!(*full.path.first().unwrap(), *full.path.last().unwrap(), "loop returns to start");
    let mut seen = full.captured.clone();
    seen.sort();
    seen.dedup();
    assert_eq!(seen.len(), 4, "no piece jumped twice");
}

#[test]
fn russian_man_promotes_mid_chain_and_continues_as_a_king() {
    // Man at (2,1) jumps (1,2)->(0,3) onto the kings row, then — as a freshly
    // crowned FLYING king (Russian) — captures a distant man (2,5) that a man
    // could never reach. "If a man touches the kings row during a capture and
    // can continue a capture, it jumps ... as a king." (Russian_draughts).
    let mut g = empty(8, true, true, false, true, false); // Russian flags
    set(&mut g, 2, 1, Cell::Man(0));
    set(&mut g, 1, 2, Cell::Man(1));
    set(&mut g, 2, 5, Cell::Man(1));
    let moves = g.gen();
    let best = moves.iter().map(|m| m.captured.len()).max().unwrap();
    assert_eq!(best, 2, "mid-chain crown lets the king take the second man");
    let full = moves.iter().find(|m| m.captured.len() == 2).unwrap().clone();
    g.apply(&full);
    let end = *full.path.last().unwrap() as usize;
    assert!(matches!(g.grid[end], Cell::King(0)), "finishes as a king");
}

#[test]
fn international_man_passes_through_king_row_without_promoting() {
    // Same geometry, International flags (no mid-chain promotion). The man
    // jumps (1,2)->(0,3) onto the far row but must keep jumping backward over
    // (1,4)->(2,5); because it does NOT stop on the far row it stays a MAN:
    // "A piece is crowned if it stops on the far edge of the board at the end
    // of its turn (that is, not if it reaches the edge but must then jump
    // another piece backward)." (Brazilian_draughts).
    let mut g = empty(10, true, true, true, false, false); // International flags
    set(&mut g, 2, 1, Cell::Man(0));
    set(&mut g, 1, 2, Cell::Man(1));
    set(&mut g, 1, 4, Cell::Man(1));
    let moves = g.gen();
    // Forced maximal chain captures both and ends at (2,5), off the far row.
    let full = moves.iter().max_by_key(|m| m.captured.len()).unwrap().clone();
    assert_eq!(full.captured.len(), 2);
    assert_eq!(*full.path.last().unwrap() as usize, rc(&g, 2, 5));
    g.apply(&full);
    let end = rc(&g, 2, 5);
    assert!(matches!(g.grid[end], Cell::Man(0)), "passed through the row → NOT crowned");
}

#[test]
fn misere_inverts_the_no_move_terminal() {
    // A seat-0 man boxed into a corner by its own turn with no move: normal
    // rules = the mover loses; Giveaway (misère) = the mover WINS.
    fn boxed(misere: bool) -> Draughts {
        let mut g = empty(8, false, false, false, false, misere);
        // Seat-0 man at (0,1) on the far row: a man cannot move forward off the
        // board and (no men_back) cannot capture; seat 1 has a piece so the
        // game isn't a mutual stalemate. Current = seat 0 with no move.
        set(&mut g, 0, 1, Cell::Man(0));
        set(&mut g, 7, 0, Cell::Man(1));
        g.current = 0;
        g
    }
    let normal = boxed(false);
    assert!(normal.gen().is_empty());
    assert_eq!(normal.term(), Some(Outcome::Loss));
    let give = boxed(true);
    assert_eq!(give.term(), Some(Outcome::Win), "misère: no move = win");
}

#[test]
fn no_move_terminal_beats_the_draw_cap_when_they_coincide() {
    // Simultaneous case: the player to move has NO legal move AND the 40-ply
    // no-progress counter is already at the cap. The decisive terminal must
    // win: normal rules = Loss (not Draw), misère = Win (not Draw).
    fn boxed(misere: bool) -> Draughts {
        let mut g = empty(8, false, false, false, false, misere);
        set(&mut g, 0, 1, Cell::Man(0)); // seat-0 man stuck on its far row
        set(&mut g, 7, 0, Cell::Man(1));
        g.current = 0;
        g.no_progress = DRAW_PLIES; // draw cap reached on the same ply
        g
    }
    let normal = boxed(false);
    assert!(normal.gen().is_empty());
    assert_eq!(normal.term(), Some(Outcome::Loss), "decisive loss beats the draw cap");
    let give = boxed(true);
    assert_eq!(give.term(), Some(Outcome::Win), "misère win beats the draw cap");
}

#[test]
fn apply_move_by_string_reconstructs_a_multi_jump_chain() {
    // End-to-end path→captured reconstruction: build a flying-king 4-capture
    // loop, take the maximal chain's dash-joined STRING, drive the engine's
    // apply_move with it, and assert every captured square is cleared and the
    // piece lands at the path's end (single-sourced captured-set recovery).
    let mut g = empty(8, true, true, false, true, false);
    set(&mut g, 5, 2, Cell::King(0));
    set(&mut g, 4, 3, Cell::Man(1));
    set(&mut g, 2, 3, Cell::Man(1));
    set(&mut g, 2, 1, Cell::Man(1));
    set(&mut g, 4, 1, Cell::Man(1));
    let moves = g.gen();
    let full = moves.iter().max_by_key(|m| m.captured.len()).unwrap().clone();
    assert_eq!(full.captured.len(), 4, "need a real multi-jump chain");
    let mv_str = full.encode();
    assert!(mv_str.matches('-').count() >= 4, "a genuine chain string: {mv_str}");

    // Drive the hand-built state's
    // apply_move with ONLY the string — captured squares are reconstructed.
    let mut w = g.clone();
    assert!(w.apply_move_str(&mv_str), "the chain string applies");
    let after = w.board_string();
    for &cap in &full.captured {
        assert_eq!(after.chars().nth(cap as usize), Some(' '), "captured square {cap} cleared");
    }
    let end = *full.path.last().unwrap() as usize;
    assert_eq!(after.chars().nth(end), Some('X'), "the king lands at the path end");
}

#[test]
fn move_encoding_round_trips_over_generated_chains() {
    // Display -> parse_path -> match must recover every generated move exactly,
    // including multi-jump chains.
    let mut g = empty(8, true, true, false, true, false);
    set(&mut g, 5, 2, Cell::King(0));
    set(&mut g, 4, 3, Cell::Man(1));
    set(&mut g, 2, 3, Cell::Man(1));
    set(&mut g, 2, 1, Cell::Man(1));
    set(&mut g, 4, 1, Cell::Man(1));
    let moves = g.gen();
    assert!(moves.iter().any(|m| m.path.len() > 2), "need real chains to test");
    for m in &moves {
        let s = m.encode();
        let parsed = DMove::parse_path(&s).expect("parses");
        assert_eq!(parsed, m.path, "round-trip path");
    }
}

#[test]
fn forty_ply_no_progress_is_a_draw() {
    // The 40-ply cap and its progress accounting (also the guarantee that
    // every search path terminates). Two lone, non-adjacent kings: seat 0 has
    // only quiet slides, and a quiet king slide TICKS the counter.
    let mut g = empty(8, true, false, false, false, false);
    set(&mut g, 0, 1, Cell::King(0));
    set(&mut g, 7, 0, Cell::King(1));
    g.current = 0;
    assert!(g.gen().iter().all(|m| m.captured.is_empty()), "no capture here");
    let before = g.no_progress;
    let slide = g.gen().into_iter().next().unwrap();
    g.apply(&slide);
    assert_eq!(g.no_progress, before + 1, "a quiet king slide is not progress");
    // At the cap the position is a draw even though legal moves remain.
    g.no_progress = DRAW_PLIES;
    assert!(!g.gen().is_empty());
    assert_eq!(g.term(), Some(Outcome::Draw));

    // A capture or a man-move RESETS the counter.
    let mut g2 = empty(8, false, false, false, false, false);
    set(&mut g2, 5, 2, Cell::Man(0));
    g2.current = 0;
    g2.no_progress = 17;
    let step = g2.gen().into_iter().next().unwrap();
    assert!(step.captured.is_empty());
    g2.apply(&step);
    assert_eq!(g2.no_progress, 0, "a man-move is progress");
}

#[test]
fn apply_move_by_string_validates_and_applies() {
    let mut g = Draughts::from_config(8, 3, 0, 0, 0, 0, 0, 0, 0); // American
    let first = g.legal_moves_string().split(',').next().unwrap().to_string();
    assert!(g.apply_move_str(&first));
    assert!(!g.apply_move_str("999-998"), "illegal path rejected");
}

// ==================================================================== wave-B

/// Deterministic engine-only self-play: at each ply pick a legal move by a
/// seeded RNG index into `gen()`, apply it, record its string. Uses ONLY the
/// move generator / apply / terminal (no MCTS), so it is fully reproducible and
/// exercises exactly the code paths the new flags touch.
fn selfplay(mut g: Draughts, seed: u64, max_plies: usize) -> Vec<String> {
    let mut rng = SmallRng::seed_from_u64(seed);
    let mut out = Vec::new();
    for _ in 0..max_plies {
        if g.term().is_some() {
            break;
        }
        let moves = g.gen();
        if moves.is_empty() {
            break;
        }
        let i = rng.gen_range(0..moves.len());
        out.push(moves[i].encode());
        let m = moves[i].clone();
        g.apply(&m);
    }
    out
}

// GOLDEN transcripts recorded from the ORIGINAL 7-arg engine (pre-flag), driven
// by `selfplay` at the fixed seeds below. The permanent tests re-run the SAME
// deterministic driver on the NEW 9-arg engine with the two new flags 0 and
// assert byte-for-byte equality — i.e. the new code changed NOTHING for wave-A.
const AMERICAN_GOLDEN: &str = "42-33,17-26,44-35,26-44,51-37,21-28,58-51,8-17,37-30,23-37,53-44,17-26,44-30,14-23,62-53,23-37,51-44,37-51,60-42,10-17,46-37,28-46-60,42-35,26-44,55-46,19-26,33-19,12-26,46-39,5-14,40-33,26-40-58,39-30,14-21,30-12,3-21,56-49,58-40";
const INTL_GOLDEN: &str = "67-58,36-45,78-67,45-56,65-47,38-56-78,89-67,34-43,74-65,29-38,67-56,43-54,65-43,32-54,63-45,38-47,58-36,25-47-65,76-54,23-32,72-63,32-43,54-32,21-43,85-74,14-23,61-52,43-61,70-52,16-25,87-76,23-32,94-85,3-14,69-58,30-41,52-30,5-16,98-87,27-36,45-27-5-23-41,12-21,30-12,1-23,81-70,10-21,63-54,23-32,41-23,18-27,87-78,9-18,78-69,27-38,74-63,7-16,83-72,16-27,70-61,38-49,76-67,21-30,54-43,27-38,23-12,30-41,90-81,25-34,43-25,41-52,63-41,18-29,41-32,38-47,58-36,49-58,69-47,29-38,47-29";

#[test]
fn wave_a_bit_identity_american_self_play_transcript() {
    // American with the two new flags 0 must reproduce the golden transcript
    // recorded from the original engine — proof the engine is bit-identical.
    let g = mk(AMERICAN);
    assert_eq!(selfplay(g, 0xA5A5A5, 80).join(","), AMERICAN_GOLDEN);
}

#[test]
fn wave_a_bit_identity_international_self_play_transcript() {
    // International (flying kings, backward capture, max-capture, mid-chain
    // pass-through) with the two new flags 0 reproduces its golden transcript.
    let g = mk(INTERNATIONAL);
    assert_eq!(selfplay(g, 0x123456, 80).join(","), INTL_GOLDEN);
}

#[test]
fn wave_a_bit_identity_all_six_variants_reproduce_across_reruns() {
    // Broader identity net: every wave-A variant's deterministic transcript is
    // self-consistent run-to-run (the driver is engine-only, no thread_rng),
    // and — the load-bearing part — none of the six ever enters the new code
    // paths: `capture_priority == 0` and `men_no_king == false` for all of them.
    for p in [AMERICAN, INTERNATIONAL, BRAZILIAN, POOL, RUSSIAN, GIVEAWAY] {
        assert!(!p.7, "wave-A men_no_king must stay off");
        assert_eq!(p.8, 0, "wave-A capture_priority must stay 0");
        let a = selfplay(mk(p), 0xBEEF, 60);
        let b = selfplay(mk(p), 0xBEEF, 60);
        assert_eq!(a, b, "engine-only self-play is deterministic");
    }
}

#[test]
fn priority_normalizes_max_capture_on_in_ctor() {
    // Decision (documented in the ctor): `capture_priority > 0` IMPLIES
    // `max_capture` — the quality tiebreak is a refinement of maximum-capture,
    // never a replacement. We pass max_capture = false for both Spanish and
    // Italian and assert the constructed state has it forced on.
    let sp = mk(SPANISH); // priority 1, max_capture arg = false
    assert!(sp.max_capture, "Spanish: priority>0 forces max_capture on");
    let it = mk(ITALIAN); // priority 2, max_capture arg = false
    assert!(it.max_capture, "Italian: priority>0 forces max_capture on");
    // And the numeric-config constructor mirrors the same normalization.
    let w = Draughts::from_config(8, 3, 1, 0, 0, 0, 0, 0, 1);
    assert!(w.max_capture);
}

// ---- man_cannot_capture_kings (Italian) ---------------------------------
//
// Board diagram (8×8, seat 0 = 'x' moving UP toward row 0, seat 1 kings 'O'):
//   row 3:  . . . . . . . .     landing squares (3,0) and (3,4) are empty
//   row 4:  . O x O . . . .     (4,1)=enemy KING, (4,3)? no — see below
//   row 5:  . . x . . . . .     (5,2)=our MAN
// Concretely: our man at (5,2); enemy KING at (4,1) with empty landing (3,0).
// Under men_no_king the man may NOT jump the king; with a second enemy MAN at
// (4,3) landing (3,4) it MAY jump the man. Squares are re-derivable: (5,2),
// (4,1), (4,3), (3,0), (3,4) all have (r+c) odd (dark playing squares).

#[test]
fn man_cannot_jump_a_king_but_may_jump_a_man() {
    // Italian flags: men_no_king on, priority 2 (max_capture normalized on).
    let mut g = empty_ex(8, false, false, false, false, false, true, 2);
    set(&mut g, 5, 2, Cell::Man(0)); // our man
    set(&mut g, 4, 1, Cell::King(1)); // enemy KING — forbidden target
    set(&mut g, 4, 3, Cell::Man(1)); // enemy MAN — legal target
    g.current = 0;
    let moves = g.gen();
    assert_eq!(moves.len(), 1, "exactly one legal capture (over the man)");
    assert_eq!(moves[0].captured, vec![rc(&g, 4, 3) as u16], "captured the MAN, not the king");
    // Contrast: with men_no_king OFF (wave-A American, priority 0) the same man
    // may jump the king — proof the guard is the only thing suppressing it.
    let mut us = empty(8, false, false, false, false, false);
    set(&mut us, 5, 2, Cell::Man(0));
    set(&mut us, 4, 1, Cell::King(1));
    us.current = 0;
    let um = us.gen();
    assert!(um.iter().any(|m| m.captured == vec![rc(&us, 4, 1) as u16]), "wave-A: man CAN jump a king");
}

#[test]
fn man_whose_only_jump_is_a_king_falls_back_to_a_quiet_move() {
    // The subtle consequence: our man's ONLY geometric jump is over a king, so
    // under men_no_king it has no capture. No other piece can capture either, so
    // the capture obligation dissolves and quiet moves become legal.
    //   row 3:  x . . . . . . .   (3,0) empty landing behind the king
    //   row 4:  . O . . . . . .   (4,1)=enemy KING
    //   row 5:  . . x . . . . .   (5,2)=our MAN, quiet step to (4,3) available
    let mut g = empty_ex(8, false, false, false, false, false, true, 2);
    set(&mut g, 5, 2, Cell::Man(0));
    set(&mut g, 4, 1, Cell::King(1));
    g.current = 0;
    let moves = g.gen();
    assert!(moves.iter().all(|m| m.captured.is_empty()), "no capture: the only jump is over a king");
    assert!(!moves.is_empty(), "quiet moves become legal");
    // The available quiet move is the man's forward step to (4,3).
    assert!(moves.iter().any(|m| m.path == vec![rc(&g, 5, 2) as u16, rc(&g, 4, 3) as u16]));
}

#[test]
fn king_may_still_jump_a_king_under_men_no_king() {
    // The guard is scoped to MEN: a KING (mover) jumping a king is unaffected.
    //   row 3:  x . . . . . . .   (3,0) empty landing
    //   row 4:  . O . . . . . .   (4,1)=enemy KING
    //   row 5:  . . X . . . . .   (5,2)=our KING (non-flying, Italian)
    let mut g = empty_ex(8, false, false, false, false, false, true, 2);
    set(&mut g, 5, 2, Cell::King(0));
    set(&mut g, 4, 1, Cell::King(1));
    g.current = 0;
    let moves = g.gen();
    assert_eq!(moves.len(), 1);
    assert_eq!(moves[0].captured, vec![rc(&g, 4, 1) as u16], "king takes king");
}

// ---- capture_priority tiers, each isolated by a crafted tie ---------------

#[test]
fn spanish_prefers_the_chain_capturing_more_kings() {
    // Flying king at (4,3) with two count-1 captures on opposite diagonals:
    // up-left over an enemy KING at (2,1) (land (1,0)); down-right over an enemy
    // MAN at (5,4) (land (6,5) or (7,6)). All three moves capture exactly one
    // piece, so Spanish's count tie breaks on kings-captured → keep only the
    // king-capturing chain.
    //   row 1:  o . . . . . . .    (1,0) landing
    //   row 2:  . O . . . . . .    (2,1)=enemy KING
    //   row 4:  . . . X . . . .    (4,3)=our flying KING
    //   row 5:  . . . . o . . .    (5,4)=enemy MAN
    let mut g = empty_ex(8, true, false, false, false, false, false, 1); // Spanish
    set(&mut g, 4, 3, Cell::King(0));
    set(&mut g, 2, 1, Cell::King(1));
    set(&mut g, 5, 4, Cell::Man(1));
    g.current = 0;
    let moves = g.gen();
    assert!(!moves.is_empty());
    assert!(moves.iter().all(|m| m.captured == vec![rc(&g, 2, 1) as u16]), "Spanish keeps only the king-capture");
    // Priority 0 (wave-A) keeps BOTH the man- and king-capturing chains.
    let mut wa = empty_ex(8, true, false, false, false, false, false, 0);
    set(&mut wa, 4, 3, Cell::King(0));
    set(&mut wa, 2, 1, Cell::King(1));
    set(&mut wa, 5, 4, Cell::Man(1));
    wa.current = 0;
    let wam = wa.gen();
    assert!(wam.iter().any(|m| m.captured == vec![rc(&wa, 5, 4) as u16]), "wave-A keeps the man-capture too");
    assert!(wam.iter().any(|m| m.captured == vec![rc(&wa, 2, 1) as u16]));
}

#[test]
fn italian_level2_prefers_capturing_with_a_king() {
    // Count tie where one capturer is a KING and one is a MAN, both taking a MAN
    // (kings-captured tie = 0). Italian level 2 ("he must do so with the king")
    // keeps the king-capturer; Spanish (no such level) keeps BOTH.
    //   row 3:  x . . . o . . .    (3,0),(3,4) landings
    //   row 4:  . o . . . o . .    (4,1)=enemy MAN, (4,5)=enemy MAN
    //   row 5:  . . X . . . x .    (5,2)=our KING, (5,6)=our MAN
    fn board(priority: u8) -> Draughts {
        let mut g = empty_ex(8, false, false, false, false, false, false, priority);
        set(&mut g, 5, 2, Cell::King(0));
        set(&mut g, 4, 1, Cell::Man(1));
        set(&mut g, 5, 6, Cell::Man(0));
        set(&mut g, 4, 5, Cell::Man(1));
        g.current = 0;
        g
    }
    let it = board(2).gen();
    assert_eq!(it.len(), 1, "Italian keeps only the king-capturer");
    assert_eq!(it[0].path[0], rc(&board(2), 5, 2) as u16, "the KING is the capturer");
    let sp = board(1).gen();
    assert_eq!(sp.len(), 2, "Spanish has no capturer-is-king level → keeps both");
}

#[test]
fn italian_level3_prefers_capturing_more_kings() {
    // Both capturers are KINGS (level-2 tie); they differ on kings-captured: one
    // takes an enemy KING, the other an enemy MAN. Italian level 3 keeps the
    // king-taker.
    //   row 4:  . O . . . o . .    (4,1)=enemy KING, (4,5)=enemy MAN
    //   row 5:  . . X . . . X .    (5,2),(5,6)=our KINGS
    let mut g = empty_ex(8, false, false, false, false, false, false, 2);
    set(&mut g, 5, 2, Cell::King(0));
    set(&mut g, 4, 1, Cell::King(1)); // king target
    set(&mut g, 5, 6, Cell::King(0));
    set(&mut g, 4, 5, Cell::Man(1)); // man target
    g.current = 0;
    let moves = g.gen();
    assert_eq!(moves.len(), 1);
    assert_eq!(moves[0].captured, vec![rc(&g, 4, 1) as u16], "kept the king-capturing chain");
}

#[test]
fn italian_level4_prefers_capturing_a_king_earliest() {
    // Everything above ties: two count-2 chains, each by a KING, each taking
    // exactly {1 king + 1 man}. They differ only in ORDER — chain X jumps the
    // king FIRST, chain Y jumps the man first then the king. Italian level 4
    // ("capture wherever the king occurs first") keeps chain X.
    //   Chain X: (5,2) → over KING(4,1) → (3,0) → over MAN(2,1) → (1,2)
    //   Chain Y: (5,6) → over MAN(4,5)  → (3,4) → over KING(2,5) → (1,6)
    let mut g = empty_ex(8, false, false, false, false, false, false, 2);
    set(&mut g, 5, 2, Cell::King(0));
    set(&mut g, 4, 1, Cell::King(1));
    set(&mut g, 2, 1, Cell::Man(1));
    set(&mut g, 5, 6, Cell::King(0));
    set(&mut g, 4, 5, Cell::Man(1));
    set(&mut g, 2, 5, Cell::King(1));
    g.current = 0;
    let moves = g.gen();
    assert_eq!(moves.len(), 1, "level-4 tiebreak leaves exactly one chain");
    let m = &moves[0];
    assert_eq!(m.captured.len(), 2, "a genuine 2-capture chain");
    assert_eq!(m.path[0], rc(&g, 5, 2) as u16, "chain X is the king-first chain");
    assert!(matches!(g.grid[m.captured[0] as usize], Cell::King(_)), "its FIRST capture is the king");
    assert_eq!(m.captured[0], rc(&g, 4, 1) as u16);
}

#[test]
fn priority_still_forces_the_longest_chain_first() {
    // max_capture-interaction: the quality tiebreak sits ON TOP of the count
    // filter, never overriding it. A 2-chain capturing 0 kings must beat a
    // 1-chain capturing a king (count dominates), even under Italian.
    //   (5,2) → over MAN(4,1) → (3,0) → over MAN(2,1) → (1,2)   [count 2, 0 kings]
    //   separate KING capturer (5,6) → over KING(4,5) → (3,4)  [count 1, 1 king]
    let mut g = empty_ex(8, false, false, false, false, false, false, 2);
    set(&mut g, 5, 2, Cell::King(0));
    set(&mut g, 4, 1, Cell::Man(1));
    set(&mut g, 2, 1, Cell::Man(1));
    set(&mut g, 5, 6, Cell::King(0));
    set(&mut g, 4, 5, Cell::King(1));
    g.current = 0;
    let moves = g.gen();
    assert_eq!(moves.len(), 1, "count filter runs first");
    assert_eq!(moves[0].captured.len(), 2, "the 2-chain wins on count before quality");
    assert_eq!(moves[0].path[0], rc(&g, 5, 2) as u16);
}
