use treant_wasm::difficulty::{preselect, rank_by_visits, Preselection};

#[test]
fn replies_rank_by_visits_with_ties_in_order() {
    let order = rank_by_visits(&vec![5, 9, 5, 1, 9]);
    assert_eq!(order, vec![1, 4, 0, 2, 3]);
}

#[test]
fn no_reply_gives_nothing() {
    assert_eq!(preselect(&vec![], &vec![], 3), Preselection::Nothing);
}

#[test]
fn a_reply_proven_lost_for_the_opponent_is_taken() {
    let order = vec![2, 0, 1];
    assert_eq!(preselect(&order, &vec![true, false, false], 3), Preselection::Take(0));
    // Outside the top two it is not a candidate.
    assert_eq!(preselect(&order, &vec![false, true, false], 2), Preselection::Weigh(vec![2, 0]));
}

#[test]
fn top_k_is_clamped() {
    let order = vec![1, 0];
    assert_eq!(preselect(&order, &vec![false, false], 0), Preselection::Take(1));
    assert_eq!(preselect(&order, &vec![false, false], 9), Preselection::Weigh(vec![1, 0]));
}
