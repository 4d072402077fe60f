use extra_collections::RingBuf;
use mm_sim::player::{roll_sr_change, sr_changes, QueueStats};
use mm_sim::player_management::{excess_players, players_giving_up, SOFT_MAX_PLAYERS, TARGET_PLAYER_COUNT};
use mm_sim::stats::{
    record_wait_times, smoothed, smoothed_samples, wait_time_samples, wait_time_summary, SMOOTHING,
};

#[test]
fn queue_stats_follow_the_player() {
    let mut s = QueueStats::new();
    assert_eq!(s.wait_time(), Some(0));
    for _ in 0..300 {
        assert!(!s.tick());
    }
    assert!(s.tick());
    assert_eq!(s.wait_time(), Some(301));
    s.stop_waiting();
    assert_eq!(s.wait_time(), None);
    assert!(!s.tick());
    assert_eq!(s.wait_time(), None);
    s.start_waiting();
    assert_eq!(s.wait_time(), Some(0));
    assert_eq!(s.max_wait_time(), 0);
    assert_eq!(QueueStats::default().wait_time(), None);
}

#[test]
fn players_who_waited_too_long_give_up() {
    let waits = vec![Some(10), Some(1201), Some(1200), Some(5000)];
    assert_eq!(players_giving_up(&waits), vec![1, 3]);

    assert!(players_giving_up(&vec![]).is_empty());
}

#[test]
fn excess_over_target() {
    assert_eq!(excess_players(10), 0);
    assert_eq!(excess_players(TARGET_PLAYER_COUNT), 0);
    assert_eq!(excess_players(TARGET_PLAYER_COUNT + 7), 7);
    assert_eq!(SOFT_MAX_PLAYERS, 1666);
}

#[test]
fn wait_summary() {
    assert_eq!(wait_time_summary(&vec![]), (0, 0, 0));
    assert_eq!(wait_time_summary(&vec![7, 3, 9, 1]), (1, 9, 9));
    assert_eq!(wait_time_summary(&vec![9, 1, 5]), (1, 9, 1));
    assert_eq!(wait_time_summary(&vec![4, 4, 2, 4]), (2, 4, 2));
    assert_eq!(wait_time_summary(&vec![5]), (5, 5, 5));
}

#[test]
fn smoothing_divides_by_window() {
    assert_eq!(smoothed(&vec![SMOOTHING, SMOOTHING, 1]), 2);
    assert_eq!(smoothed(&vec![]), 0);
}

#[test]
fn wait_times_are_recorded_in_ring_buffers() {
    let mut low = RingBuf::new(2);
    let mut high = RingBuf::new(2);
    let mut median = RingBuf::new(2);
    record_wait_times(&vec![4, 8, 2], &mut low, &mut high, &mut median);
    record_wait_times(&vec![], &mut low, &mut high, &mut median);
    record_wait_times(&vec![6, 5], &mut low, &mut high, &mut median);
    let lows: Vec<usize> = low.iter().copied().collect();
    let highs: Vec<usize> = high.iter().copied().collect();
    let medians: Vec<usize> = median.iter().copied().collect();
    assert_eq!(lows, vec![0, 5]);
    assert_eq!(highs, vec![0, 6]);
    assert_eq!(medians, vec![0, 5]);
}

#[test]
fn smoothed_samples_sum_the_ring_buffer() {
    let mut buf = RingBuf::new(3);
    for v in [SMOOTHING, SMOOTHING, SMOOTHING, 2 * SMOOTHING] {
        buf.push(v);
    }
    assert_eq!(smoothed_samples(&buf), 4);
}

#[test]
fn skill_moves_above_fifty_with_a_bonus_for_winning() {
    assert!(!sr_changes(50, false));
    assert!(sr_changes(51, false));
    assert!(sr_changes(26, true));
    assert!(!sr_changes(25, true));
    assert!(!sr_changes(0, true));
    assert!(sr_changes(99, false));
}

#[test]
fn rolled_skill_change_depends_on_the_roll() {
    // a loss moves skill only on rolls above 50, so some of many rolls must not
    let rolls: Vec<(usize, bool)> = (0..400).map(|_| roll_sr_change(false)).collect();
    for &(roll, moves) in &rolls {
        assert!(roll < 100);
        assert_eq!(moves, sr_changes(roll, false));
    }
    let outcomes: Vec<bool> = rolls.iter().map(|&(_, moves)| moves).collect();
    assert!(outcomes.iter().any(|&b| !b));
    assert!(outcomes.iter().any(|&b| b));
}

#[test]
fn wait_time_samples_keep_the_last_smoothing_values() {
    let mut buf = wait_time_samples();
    assert!(buf.is_empty());
    for v in 0..SMOOTHING + 3 {
        buf.push(v);
    }
    assert_eq!(buf.len(), SMOOTHING);
    assert_eq!(buf.iter().next(), Some(&3));
}
