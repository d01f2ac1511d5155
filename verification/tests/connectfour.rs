use treant_wasm::connectfour::{config, encode_move, parse_move, POP_OFFSET};

#[test]
fn connectfour_config_clamps() {
    let c = config(7, 6, 4, 2, 0);
    assert_eq!((c.cols, c.rows, c.k, c.num_players), (7, 6, 4, 2));
    assert!(!c.wrap_cols && !c.allow_pop && c.gravity && c.center_column_bonus);
    let c = config(1, 40, 99, 9, 2);
    assert_eq!((c.cols, c.rows, c.k, c.num_players), (3, 12, 12, 6));
    assert!(c.wrap_cols && !c.allow_pop);
    let c = config(7, 6, 2, 1, 1);
    assert_eq!(c.k, 2, "k=2 must not be clamped up to 3");
    assert_eq!(c.num_players, 2);
    assert!(c.allow_pop && !c.wrap_cols);
}

#[test]
fn connectfour_move_vocabulary() {
    assert_eq!(encode_move("3".to_string()), "3");
    assert_eq!(encode_move("131".to_string()), "pop3");
    assert_eq!(encode_move("128".to_string()), "pop0");
    assert_eq!(encode_move("x".to_string()), "x");
    assert_eq!(parse_move("3", 7), Some(3));
    assert_eq!(parse_move("pop3", 7), Some(3 + POP_OFFSET));
    assert_eq!(parse_move("9", 7), None);
    assert_eq!(parse_move("pop7", 7), None);
    assert_eq!(parse_move("pop", 7), None);
    assert_eq!(parse_move("", 7), None);
    assert_eq!(parse_move(&encode_move("134".to_string()), 7), Some(134));
}
