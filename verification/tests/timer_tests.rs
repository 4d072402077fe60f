use mm_sim::time::SimTime;
use mm_sim::{MatchStats, TickTimer, TimerMode};

#[test]
fn once_timer_finishes_after_duration_and_stays() {
    let mut t = TickTimer::new(3, TimerMode::Once);
    t.tick();
    t.tick();
    assert!(!t.is_finished());
    assert_eq!(t.elapsed(), 2);
    t.tick();
    assert!(t.is_finished());
    assert_eq!(t.elapsed(), 3);
    assert!(t.just_finished());
    assert!(!t.just_finished());
    t.tick();
    assert!(t.is_finished());
    assert_eq!(t.elapsed(), 3);
    assert!(!t.just_finished());
}

#[test]
fn repeating_timer_finishes_every_period() {
    let mut t = TickTimer::new(4, TimerMode::Repeating);
    let mut finishes = Vec::new();
    for k in 1..=12 {
        t.tick();
        if t.is_finished() {
            finishes.push(k);
        }
        assert_eq!(t.elapsed(), k % 4);
    }
    assert_eq!(finishes, vec![4, 8, 12]);
}

#[test]
fn just_finished_reports_a_finish_since_last_check() {
    let mut t = TickTimer::new(2, TimerMode::Repeating);
    t.tick();
    assert!(!t.just_finished());
    t.tick();
    assert!(t.just_finished());
    t.tick();
    assert!(!t.just_finished());
}

#[test]
fn a_finish_is_kept_until_it_is_checked() {
    let mut t = TickTimer::new(2, TimerMode::Repeating);
    t.tick();
    t.tick();
    t.tick();
    assert!(!t.is_finished());
    assert!(t.just_finished());
    assert!(!t.just_finished());
}

#[test]
fn finishes_add_up_between_checks() {
    let mut t = TickTimer::new(2, TimerMode::Repeating);
    for _ in 0..5 {
        t.tick();
    }
    assert_eq!(t.finishes_since_last_check(), 2);
    assert!(t.just_finished());
    assert_eq!(t.finishes_since_last_check(), 0);
}

#[test]
fn zero_duration_timers_finish_on_first_tick() {
    let mut once = TickTimer::new(0, TimerMode::Once);
    assert!(!once.is_finished());
    once.tick();
    assert!(once.is_finished());
    assert_eq!(once.elapsed(), 1);
    let mut rep = TickTimer::new(0, TimerMode::Repeating);
    rep.tick();
    rep.tick();
    assert!(rep.is_finished());
    assert_eq!(rep.elapsed(), 0);
    assert!(rep.just_finished());
}

#[test]
fn timer_reports_its_settings() {
    let t = TickTimer::new(60, TimerMode::Repeating);
    assert_eq!(t.duration(), 60);
    assert_eq!(t.mode(), TimerMode::Repeating);
    let d = TickTimer::default();
    assert_eq!(d.duration(), 0);
    assert_eq!(d.mode(), TimerMode::Once);
}

#[test]
fn tick_returns_the_updated_timer() {
    let mut t = TickTimer::new(1, TimerMode::Once);
    let r = t.tick();
    assert!(r.is_finished());
}

#[test]
fn match_stats_count_up() {
    let mut s = MatchStats::default();
    assert_eq!(s.gave_up(), 0);
    s.add_gave_up(3);
    s.add_gave_up(2);
    s.add_match_played();
    assert_eq!(s.gave_up(), 5);
    assert_eq!(s.matches_played(), 1);
}

#[test]
fn datetime_splits_seconds_into_calendar_fields() {
    let mut t = SimTime::new();
    for _ in 0..3661 {
        t.tick();
    }
    assert_eq!(t.elapsed_secs(), 3661);
    let d = t.base_time();
    assert_eq!((d.hour(), d.minute(), d.second()), (1, 1, 1));
    assert_eq!((d.year(), d.month(), d.day(), d.offset()), (0, 0, 0, 0));
    let shifted = t.datetime_from_offset(2);
    assert_eq!((shifted.hour(), shifted.minute(), shifted.second()), (3, 1, 1));
    assert_eq!(shifted.offset(), 2);
}

#[test]
fn datetime_offset_is_taken_modulo_a_day() {
    let t = SimTime::default();
    assert_eq!(t.datetime_from_offset(25), t.datetime_from_offset(1));
    let d = t.datetime_from_offset(23);
    assert_eq!((d.day(), d.hour()), (0, 23));
}

#[test]
fn datetime_rolls_over_days_months_and_years() {
    let mut t = SimTime::new();
    // one year, one month, one day, one hour, one minute, one second
    let total = 31_104_000 + 2_592_000 + 86_400 + 3_600 + 60 + 1;
    for _ in 0..total {
        t.tick();
    }
    let d = t.base_time();
    assert_eq!(
        (d.year(), d.month(), d.day(), d.hour(), d.minute(), d.second()),
        (1, 1, 1, 1, 1, 1)
    );
    let e = t.datetime_from_offset(23);
    assert_eq!((e.day(), e.hour()), (2, 0));
}
