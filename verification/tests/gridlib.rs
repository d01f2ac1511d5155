use treant_wasm::gridlib::{center_eval, has_line, has_square, line_symbol, max_run, window_eval};

#[test]
fn max_run_counts_the_longest_line_through_a_cell() {
    // 3x3: a diagonal of 0s and a row of two 1s.
    let b: Vec<i8> = vec![0, 1, 1, -1, 0, -1, -1, -1, 0];
    assert_eq!(max_run(&b, 3, 3, 1, 1, 0), 3);
    assert_eq!(max_run(&b, 3, 3, 0, 1, 1), 2);
    assert_eq!(max_run(&b, 3, 3, 1, 0, 0), 0);
}

#[test]
fn cells_past_the_grid_are_not_read() {
    // A 2x2 grid stored with trailing cells that would complete lines if read.
    let b: Vec<i8> = vec![0, 0, -1, -1, 0, 0, 0, 0];
    assert_eq!(max_run(&b, 2, 2, 0, 0, 0), 2);
    assert_eq!(line_symbol(&b, 2, 2, 3), None);
    assert!(!has_line(&b, 2, 2, 0, 3));
    assert!(has_line(&b, 2, 2, 0, 2));
    assert_eq!(center_eval(&b, 2, 2, 0), 0);
    assert!(!has_square(&b, 2, 2, 0));
}

#[test]
fn a_tilted_square_is_found() {
    // 3x3 with the four edge midpoints: a square standing on a corner.
    let b: Vec<i8> = vec![-1, 1, -1, 1, -1, 1, -1, 1, -1];
    assert!(has_square(&b, 3, 3, 1));
    assert!(!has_square(&b, 3, 3, 0));
}

#[test]
fn center_eval_ignores_mirror_and_flip() {
    // 3x2 board (3 columns, 2 rows).
    let b: Vec<i8> = vec![0, -1, -1, 0, 0, -1];
    let mirror: Vec<i8> = vec![-1, -1, 0, -1, 0, 0];
    let flip: Vec<i8> = vec![0, 0, -1, 0, -1, -1];
    let e = center_eval(&b, 3, 2, 0);
    assert_eq!(center_eval(&mirror, 3, 2, 0), e);
    assert_eq!(center_eval(&flip, 3, 2, 0), e);
}

#[test]
fn a_stone_of_mine_never_lowers_my_windows() {
    let b: Vec<i8> = vec![0, -1, -1, -1, 1, -1, -1, -1, -1];
    let base = window_eval(&b, 3, 3, 0, 3);
    let mut mine = b.clone();
    mine[1] = 0;
    let mut theirs = b.clone();
    theirs[1] = 1;
    assert!(window_eval(&mine, 3, 3, 0, 3) >= base);
    assert!(base >= window_eval(&theirs, 3, 3, 0, 3));
    assert!(window_eval(&theirs, 3, 3, 0, 3) >= 0);
}

#[test]
fn a_line_survives_another_stone() {
    let b: Vec<i8> = vec![0, 0, -1, -1, -1, -1, -1, -1, -1];
    assert!(has_line(&b, 3, 3, 0, 2));
    let mut b2 = b.clone();
    b2[8] = 0;
    assert!(has_line(&b2, 3, 3, 0, 2));
}
