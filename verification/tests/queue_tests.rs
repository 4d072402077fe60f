use mm_sim::queue::{
    check_valid_match, make_matches, take_matched_players, tick_queue, MatchValidityCheckResult,
};

fn table(n: usize, allowed: impl Fn(usize, usize) -> bool) -> Vec<Vec<bool>> {
    (0..n).map(|i| (0..n).map(|j| allowed(i, j)).collect()).collect()
}

#[test]
fn clear_window_is_valid() {
    let t = table(12, |_, _| true);
    let r = check_valid_match(&t, 0, 10, &vec![]);
    assert_eq!(r, MatchValidityCheckResult::Valid);
    assert!(r.is_valid());
    assert!(!r.is_invalid());
}

#[test]
fn conflict_names_lower_position_of_first_pair() {
    // players 3 and 6 may not meet
    let t = table(12, |i, j| !((i == 3 && j == 6) || (i == 6 && j == 3)));
    let r = check_valid_match(&t, 0, 10, &vec![]);
    assert_eq!(r, MatchValidityCheckResult::InvalidMoveForward(3));
    assert!(r.is_invalid());
    // a skipped player does not count
    assert_eq!(check_valid_match(&t, 0, 10, &vec![6]), MatchValidityCheckResult::Valid);
    // a one-sided refusal is met first from the later row
    let u = table(12, |i, j| !(i == 7 && j == 2));
    assert_eq!(check_valid_match(&u, 0, 10, &vec![]), MatchValidityCheckResult::InvalidMoveForward(2));
}

#[test]
fn a_full_window_makes_a_match() {
    let t = table(9, |_, _| true);
    let plan = make_matches(&t, false);
    assert!(plan.games.is_empty());
    let t = table(10, |_, _| true);
    let plan = make_matches(&t, false);
    assert_eq!(plan.games, vec![[0, 1, 2, 3, 4, 5, 6, 7, 8, 9]]);
    assert!(plan.failed_windows.is_empty());
    assert!(plan.skipped.is_empty());
}

#[test]
fn twenty_compatible_players_make_two_matches() {
    let t = table(20, |_, _| true);
    let plan = make_matches(&t, false);
    assert_eq!(
        plan.games,
        vec![[0, 1, 2, 3, 4, 5, 6, 7, 8, 9], [10, 11, 12, 13, 14, 15, 16, 17, 18, 19]]
    );
}

#[test]
fn consecutive_matches_follow_each_other() {
    let t = table(23, |_, _| true);
    let plan = make_matches(&t, false);
    assert_eq!(
        plan.games,
        vec![[0, 1, 2, 3, 4, 5, 6, 7, 8, 9], [10, 11, 12, 13, 14, 15, 16, 17, 18, 19]]
    );
}

#[test]
fn prioritizing_high_starts_past_the_remainder() {
    let t = table(23, |_, _| true);
    let plan = make_matches(&t, true);
    assert_eq!(
        plan.games,
        vec![[3, 4, 5, 6, 7, 8, 9, 10, 11, 12], [13, 14, 15, 16, 17, 18, 19, 20, 21, 22]]
    );
}

#[test]
fn failed_window_moves_past_first_conflict() {
    // player 2 refuses to meet player 5
    let t = table(30, |i, j| !(i == 2 && j == 5) && !(i == 5 && j == 2));
    let plan = make_matches(&t, false);
    assert_eq!(plan.failed_windows, vec![(0, 10)]);
    assert_eq!(plan.games, vec![[3, 4, 5, 6, 7, 8, 9, 10, 11, 12], [13, 14, 15, 16, 17, 18, 19, 20, 21, 22]]);
}

#[test]
fn window_start_moves_on_when_the_next_player_is_out_of_range() {
    // players 0 and 10 may not meet: the window 0..10 is never tried
    let t = table(20, |i, j| !(i == 0 && j == 10) && !(i == 10 && j == 0));
    let plan = make_matches(&t, false);
    assert!(plan.failed_windows.is_empty());
    assert_eq!(plan.games, vec![[1, 2, 3, 4, 5, 6, 7, 8, 9, 10]]);
}

#[test]
fn a_window_that_takes_an_unmatchable_player_fails() {
    // nobody may meet player 10
    let t = table(22, |i, j| i != 10 && j != 10);
    let plan = make_matches(&t, false);
    let failed: Vec<(usize, usize)> = (1..10).map(|m| (m, m + 10)).collect();
    assert_eq!(plan.failed_windows, failed);
    assert_eq!(plan.games, vec![[11, 12, 13, 14, 15, 16, 17, 18, 19, 20]]);
}

#[test]
fn matched_players_leave_the_queue() {
    let mut queue: Vec<u32> = (100..123).collect();
    let games = vec![[0, 1, 2, 3, 4, 5, 6, 7, 8, 9], [11, 12, 13, 14, 15, 16, 17, 18, 19, 20]];
    let taken = take_matched_players(&mut queue, &games);
    assert_eq!(taken[0], [100, 101, 102, 103, 104, 105, 106, 107, 108, 109]);
    assert_eq!(taken[1], [111, 112, 113, 114, 115, 116, 117, 118, 119, 120]);
    assert_eq!(queue, vec![110, 121, 122]);
}

#[test]
fn queue_tick_ages_waits_and_lets_long_waiters_go() {
    let mut queue = vec![('a', 0), ('b', 1200), ('c', 1199), ('d', 5000), ('e', 7)];
    let gave_up = tick_queue(&mut queue);
    assert_eq!(gave_up, vec!['b', 'd']);
    assert_eq!(queue, vec![('a', 1), ('c', 1200), ('e', 8)]);
    let gave_up = tick_queue(&mut queue);
    assert_eq!(gave_up, vec!['c']);
    assert_eq!(queue, vec![('a', 2), ('e', 9)]);
    let mut empty: Vec<(char, usize)> = Vec::new();
    assert!(tick_queue(&mut empty).is_empty());
    assert!(empty.is_empty());
}
