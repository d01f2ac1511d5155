use treant_wasm::bullscows::{feedback, BullsCows, Deduction, LEGAL_SAMPLE, MAX_ROUNDS};
use rand::rngs::SmallRng;
use rand::{Rng, SeedableRng};

#[test]
fn feedback_distinct_digits() {
    // Secret 4271, guess 1234 → 1 bull, 2 cows.
    let (b, c) = feedback(&[1, 2, 3, 4], &[4, 2, 7, 1]);
    assert_eq!((b, c), (1, 2));
}

#[test]
fn feedback_all_bulls() {
    assert_eq!(feedback(&[0, 1, 2, 3], &[0, 1, 2, 3]), (4, 0));
}

#[test]
fn feedback_handles_repeated_digits() {
    // guess 1122 vs code 1213: one bull; symbol matches 2 + 1 + 0 = 3 → 2 cows.
    assert_eq!(feedback(&[1, 1, 2, 2], &[1, 2, 1, 3]), (1, 2));
    // guess 2222 vs code 1213: one '2' in code → 1 match.
    assert_eq!(feedback(&[2, 2, 2, 2], &[1, 2, 1, 3]), (1, 0));
}

#[test]
fn code_setting_then_guessing_phases() {
    let mut g = BullsCows::new(4, 10, false);
    assert_eq!(g.current, 0);
    assert!(g.apply("set:0123")); // seat 0
    assert_eq!(g.current, 1);
    assert!(!g.apply("g:0123")); // can't guess before both set
    assert!(g.apply("set:4567")); // seat 1
    assert!(g.both_set());
    assert_eq!(g.current, 0); // seat 0 guesses first
}

#[test]
fn rejects_malformed_codes() {
    let mut g = BullsCows::new(4, 10, false);
    assert!(!g.apply("set:012")); // too short
    assert!(!g.apply("set:0122")); // repeat when repeats disabled
    assert!(g.apply("set:0123"));
}

#[test]
fn first_to_crack_wins_and_result_is_seat_digit() {
    let mut g = BullsCows::new(4, 10, false);
    g.apply("set:0123");
    g.apply("set:4567");
    assert!(g.apply("g:4567")); // seat 0 cracks seat 1's code
    assert!(g.is_terminal());
    assert_eq!(g.winner, Some(0));
    assert_eq!(g.result(), "1");
}

#[test]
fn round_cap_falls_back_to_bulls_progress() {
    let mut g = BullsCows::new(4, 10, false);
    g.codes[0] = Some(vec![0, 1, 2, 3]);
    g.codes[1] = Some(vec![4, 5, 6, 7]);
    for _ in 0..MAX_ROUNDS {
        g.guesses[0].push((vec![4, 5, 6, 8], 3, 0)); // 3 bulls vs 4567
        g.guesses[1].push((vec![0, 1, 8, 9], 2, 0)); // 2 bulls vs 0123
    }
    assert!(g.cap_reached());
    assert!(g.is_terminal());
    assert_eq!(g.result(), "1"); // seat 0 has more bulls-progress
}

#[test]
fn round_cap_equal_progress_is_a_draw() {
    let mut g = BullsCows::new(4, 10, false);
    g.codes[0] = Some(vec![0, 1, 2, 3]);
    g.codes[1] = Some(vec![4, 5, 6, 7]);
    for _ in 0..MAX_ROUNDS {
        g.guesses[0].push((vec![4, 5, 8, 9], 2, 0));
        g.guesses[1].push((vec![0, 1, 8, 9], 2, 0));
    }
    assert_eq!(g.result(), "Draw");
}

#[test]
fn move_encoding_round_trips() {
    let g = BullsCows::new(4, 10, false);
    let code = vec![3, 1, 4, 0];
    let s = BullsCows::code_str(&code);
    assert_eq!(s, "3140");
    assert_eq!(g.parse_code(&s), Some(code));
}

#[test]
fn board_never_leaks_opponent_code_midgame() {
    let mut g = BullsCows::new(4, 10, false);
    g.apply("set:0123");
    g.apply("set:4567");
    g.apply("g:8901");
    assert_eq!(g.current, 1);
    let view = g.render(1);
    assert!(!view.contains("0123"), "seat 1 must not see seat 0's code: {view}");
    let v0 = g.render(0);
    assert!(v0.contains("0123"));
    assert!(!v0.contains("4567"), "seat 0 must not see seat 1's code mid-game: {v0}");
}

#[test]
fn board_reveals_both_codes_only_at_game_over() {
    let mut g = BullsCows::new(4, 10, false);
    g.apply("set:0123");
    g.apply("set:4567");
    g.apply("g:4567");
    let v = g.render(0);
    assert!(v.contains("0123") && v.contains("4567"), "game over reveals both: {v}");
}

#[test]
fn consistent_set_filters_by_feedback() {
    let mut g = BullsCows::new(4, 10, false);
    g.codes[0] = Some(vec![0, 1, 2, 3]);
    g.codes[1] = Some(vec![4, 5, 6, 7]);
    g.guesses[0].push((vec![4, 5, 6, 7], 4, 0));
    let cs = g.consistent_codes(0);
    assert_eq!(cs, vec![vec![4, 5, 6, 7]]);
}

fn ranked_parts(d: Deduction) -> (Vec<Vec<u8>>, Vec<(usize, usize)>) {
    match d {
        Deduction::Fixed(c) => (vec![c], Vec::new()),
        Deduction::Ranked(cs, top, _) => (cs, top),
    }
}

#[test]
fn ai_is_a_pure_function_of_feedback() {
    // Two games whose opponent codes differ but whose guessing seat has an identical
    // feedback log yield identical candidate sets, rankings and guesses.
    let mut a = BullsCows::new(4, 10, false);
    let mut b = BullsCows::new(4, 10, false);
    a.codes[0] = Some(vec![9, 8, 7, 6]);
    b.codes[0] = Some(vec![1, 2, 3, 4]);
    a.codes[1] = Some(vec![4, 5, 6, 7]);
    b.codes[1] = Some(vec![0, 3, 8, 9]);
    let log = vec![(vec![0, 1, 2, 3], 0u8, 1u8), (vec![4, 5, 8, 9], 1u8, 1u8)];
    a.guesses[0] = log.clone();
    b.guesses[0] = log;
    assert_eq!(a.consistent_codes(0), b.consistent_codes(0));
    for seed in [1u32, 7, 42, 1000] {
        assert_eq!(
            ranked_parts(a.deduce(0, 5000, 3, seed)),
            ranked_parts(b.deduce(0, 5000, 3, seed)),
            "ranking diverged for identical feedback (seed {seed})",
        );
        assert_eq!(a.ai_guess_greedy(0, 5000, seed), b.ai_guess_greedy(0, 5000, seed));
    }
}

#[test]
fn hard_ai_cracks_a_four_digit_code_quickly() {
    let secret = vec![7, 1, 8, 3];
    let mut g = BullsCows::new(4, 10, false);
    g.codes[0] = Some(vec![0, 1, 2, 3]);
    g.codes[1] = Some(secret.clone());
    let mut guesses = 0;
    loop {
        assert!(guesses < 8, "Hard AI failed to crack within 8 guesses");
        let guess = g.ai_guess_greedy(0, u64::MAX, 0);
        let (b, c) = feedback(&guess, &secret);
        g.guesses[0].push((guess.clone(), b, c));
        guesses += 1;
        if b as usize == g.len {
            break;
        }
    }
    assert!(guesses <= 6, "Hard AI took {guesses} guesses (expected ≤6)");
}

#[test]
fn ai_sets_a_valid_random_code_in_setup() {
    let g = BullsCows::new(4, 10, false);
    let mv = g.pick_move_greedy(100, 3).unwrap();
    let code = mv.strip_prefix("set:").unwrap();
    assert!(g.parse_code(code).is_some(), "AI setup code invalid: {mv}");
}

#[test]
fn legal_sample_moves_are_all_applyable() {
    let mut g = BullsCows::new(4, 10, false);
    for m in g.legal_sample() {
        let mut c = g.clone();
        assert!(c.apply(&m), "setup legal move rejected: {m}");
    }
    g.apply("set:0123");
    g.apply("set:4567");
    for m in g.legal_sample() {
        let mut c = g.clone();
        assert!(c.apply(&m), "guess legal move rejected: {m}");
    }
}

#[test]
fn ai_plays_a_full_self_play_game_to_terminal() {
    let mut g = BullsCows::new(4, 10, false);
    let mut rng = SmallRng::seed_from_u64(99);
    let mut plies = 0;
    while !g.is_terminal() {
        assert!(plies < 100, "self-play did not terminate");
        let mv = g.pick_move_greedy(2000, rng.gen()).unwrap();
        assert!(g.apply(&mv), "AI produced an illegal move: {mv}");
        plies += 1;
    }
    assert!(!g.result().is_empty());
}

#[test]
fn repeats_variant_allows_and_scores_repeats() {
    let mut g = BullsCows::new(4, 10, true);
    assert!(g.apply("set:1122"));
    assert!(g.apply("set:3344"));
    assert!(g.apply("g:1122"));
    assert!(!g.is_terminal());
}

// Further cases.

#[test]
fn legal_sample_is_full_distinct_and_starts_canonical() {
    let g = BullsCows::new(4, 10, false);
    let s = g.legal_sample();
    assert_eq!(s.len(), LEGAL_SAMPLE);
    assert_eq!(s[0], "set:0123");
    for i in 0..s.len() {
        for j in i + 1..s.len() {
            assert_ne!(s[i], s[j]);
        }
    }
}

#[test]
fn legal_sample_is_empty_when_over() {
    let mut g = BullsCows::new(4, 10, false);
    g.apply("set:0123");
    g.apply("set:4567");
    g.apply("g:4567");
    assert!(g.legal_sample().is_empty());
    assert_eq!(g.pick_move_greedy(10, 1), None);
}

#[test]
fn first_guess_is_canonical() {
    let g = BullsCows::new(5, 6, true);
    assert_eq!(g.canonical_first(), vec![0, 1, 2, 3, 4]);
    let g = BullsCows::new(5, 3, true); // symbols clamp to 6
    assert_eq!(g.sym, 6);
    assert_eq!(g.ai_guess_greedy(0, 10, 9), vec![0, 1, 2, 3, 4]);
}

#[test]
fn unique_consistent_code_is_guessed() {
    let mut g = BullsCows::new(4, 10, false);
    g.guesses[0].push((vec![4, 5, 6, 7], 4, 0));
    assert_eq!(g.ai_guess_greedy(0, 100, 5), vec![4, 5, 6, 7]);
    match g.deduce(0, 100, 3, 5) {
        Deduction::Fixed(c) => assert_eq!(c, vec![4, 5, 6, 7]),
        Deduction::Ranked(..) => panic!("a unique consistent code is not ranked"),
    }
}

#[test]
fn ranking_keeps_top_k_sorted_by_bucket() {
    let mut g = BullsCows::new(4, 10, false);
    g.guesses[0].push((vec![0, 1, 2, 3], 0, 1));
    g.guesses[0].push((vec![4, 5, 8, 9], 1, 1));
    match g.deduce(0, 50, 4, 11) {
        Deduction::Ranked(cs, top, _) => {
            assert_eq!(top.len(), 4);
            for w in top.windows(2) {
                assert!(w[0].0 <= w[1].0);
            }
            for &(_, ci) in &top {
                assert!(ci < cs.len());
            }
        }
        Deduction::Fixed(_) => panic!("many codes remain"),
    }
}

#[test]
fn move_text_follows_the_phase() {
    let mut g = BullsCows::new(4, 10, false);
    assert_eq!(g.move_text(&vec![1, 2, 3, 4]), "set:1234");
    g.apply("set:0123");
    g.apply("set:4567");
    assert_eq!(g.move_text(&vec![1, 2, 3, 4]), "g:1234");
}

#[test]
fn feedback_is_symmetric_and_exact_on_itself() {
    let a: Vec<u8> = vec![1, 2, 3, 4];
    let b: Vec<u8> = vec![4, 2, 1, 9];
    assert_eq!(feedback(&a, &b), feedback(&b, &a));
    assert_eq!(feedback(&a, &b), (1, 2));
    assert_eq!(feedback(&a, &a), (4, 0));
}
