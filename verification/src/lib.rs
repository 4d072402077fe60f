//! Matchmaking simulation core: the verified data structures and rules behind
//! a pool of players that queue, are grouped into lobbies, split into teams
//! and timed while their matches run.

pub mod ring_buffer;
pub mod time;
pub mod queue;
pub mod lobby;
pub mod player;
pub mod player_management;
pub mod stats;

use vstd::prelude::*;

verus! {

/// Number of players on one team.
pub const TEAM_SIZE: usize = 5;

/// Number of teams in a match.
pub const TEAM_COUNT: usize = 2;

/// Number of players in a match.
pub const MATCH_PLAYER_COUNT: usize = TEAM_SIZE * TEAM_COUNT;

/// Counters kept over the whole simulation.
#[derive(Debug, PartialEq, PartialOrd, Clone, Copy)]
pub struct MatchStats {
    gave_up: usize,
    matches_played: usize,
}

/// The counters of a [`MatchStats`].
#[derive(Debug, Clone, Copy, PartialEq, Eq, Structural)]
pub struct MatchStatsView {
    pub gave_up: usize,
    pub matches_played: usize,
}

impl View for MatchStats {
    type V = MatchStatsView;

    closed spec fn view(&self) -> MatchStatsView {
        MatchStatsView { gave_up: self.gave_up, matches_played: self.matches_played }
    }
}

impl MatchStats {
    /// Counters that start at zero.
    pub fn new() -> (r: Self)
        ensures
            r@ == (MatchStatsView { gave_up: 0, matches_played: 0 }),
    {
        MatchStats { gave_up: 0, matches_played: 0 }
    }

    /// How many players gave up waiting in the queue.
    pub fn gave_up(&self) -> (r: usize)
        ensures
            r == self@.gave_up,
    {
        self.gave_up
    }

    /// How many matches were played to the end.
    pub fn matches_played(&self) -> (r: usize)
        ensures
            r == self@.matches_played,
    {
        self.matches_played
    }

    /// Counts `count` more players that gave up waiting.
    pub fn add_gave_up(&mut self, count: usize)
        requires
            old(self)@.gave_up + count <= usize::MAX,
        ensures
            final(self)@ == (MatchStatsView { gave_up: (old(self)@.gave_up + count) as usize, ..old(self)@ }),
    {
        self.gave_up = self.gave_up + count;
    }

    /// Counts one more match played to the end.
    pub fn add_match_played(&mut self)
        requires
            old(self)@.matches_played < usize::MAX,
        ensures
            final(self)@ == (MatchStatsView {
                matches_played: (old(self)@.matches_played + 1) as usize,
                ..old(self)@
            }),
    {
        self.matches_played = self.matches_played + 1;
    }
}

impl Default for MatchStats {
    fn default() -> (r: Self)
        ensures
            r@ == (MatchStatsView { gave_up: 0, matches_played: 0 }),
    {
        MatchStats::new()
    }
}

/// Whether a timer stops after finishing once or starts over.
#[derive(Debug, Clone, Copy, PartialEq, Eq, Structural)]
pub enum TimerMode {
    /// Finishes once and then stays finished.
    Once,
    /// Starts over each time it finishes.
    Repeating,
}

/// The observable state of a [`TickTimer`].
#[derive(Debug, Clone, Copy, PartialEq, Eq, Structural)]
pub struct TickTimerView {
    pub duration: usize,
    pub elapsed: usize,
    pub finished: bool,
    pub times_finished: usize,
    pub mode: TimerMode,
}

/// The state of a timer after one tick: a finished `Once` timer does not move;
/// otherwise one more tick has elapsed, the timer is finished when the elapsed
/// ticks reach the duration, a finished `Repeating` timer starts over at zero, and
/// the count of finishes since the last check goes up on a finishing tick and is
/// kept on any other, until [`TickTimer::just_finished`] reads it.
pub open spec fn ticked(t: TickTimerView) -> TickTimerView {
    if t.mode != TimerMode::Repeating && t.finished {
        t
    } else {
        let elapsed = t.elapsed + 1;
        if elapsed >= t.duration {
            TickTimerView {
                elapsed: if t.mode == TimerMode::Repeating {
                    0
                } else {
                    elapsed as usize
                },
                finished: true,
                times_finished: (t.times_finished + 1) as usize,
                ..t
            }
        } else {
            TickTimerView { elapsed: elapsed as usize, finished: false, ..t }
        }
    }
}

/// The length of one period of a timer: its duration, and at least one tick.
pub open spec fn period(t: TickTimerView) -> int {
    if t.duration == 0 {
        1
    } else {
        t.duration as int
    }
}

/// The states that ticking a fresh timer can reach: a `Once` timer has elapsed at
/// most one period and is finished exactly when it has elapsed a whole period; a
/// `Repeating` timer stays within one period and is at zero whenever it is finished.
pub open spec fn tick_consistent(t: TickTimerView) -> bool {
    match t.mode {
        TimerMode::Once => t.elapsed <= period(t) && t.finished == (t.elapsed >= period(t)),
        TimerMode::Repeating => t.elapsed < period(t) && (t.finished ==> t.elapsed == 0),
    }
}

/// The state of a fresh timer after `k` ticks (ignoring the machine limit on the
/// finish counter).
pub open spec fn ticked_n(t: TickTimerView, k: nat) -> TickTimerView
    decreases k,
{
    if k == 0 {
        t
    } else {
        ticked(ticked_n(t, (k - 1) as nat))
    }
}

/// Ticking keeps a timer within the states that a fresh timer can reach.
pub proof fn lemma_tick_keeps_consistent(t: TickTimerView)
    requires
        tick_consistent(t),
    ensures
        tick_consistent(ticked(t)),
{
}

/// A tick never loses a finish that has not been checked yet: the count of finishes
/// since the last check never goes down, and it goes up, by one, exactly on a tick
/// that moves the timer and finishes a period.
pub proof fn lemma_tick_keeps_unchecked_finishes(t: TickTimerView)
    requires
        t.times_finished < usize::MAX,
    ensures
        t.times_finished <= ticked(t).times_finished <= t.times_finished + 1,
        ticked(t).times_finished > t.times_finished <==> ((t.mode == TimerMode::Repeating
            || !t.finished) && ticked(t).finished),
{
}

/// A fresh `Repeating` timer finishes on every tick that completes a whole number of
/// periods and starts over: after `k` ticks it has elapsed `k` modulo its period, is
/// finished exactly when `k` is a positive multiple of the period, and (up to the
/// machine limit of the counter) has counted one unchecked finish per whole period.
pub proof fn lemma_repeating_timer_period(t: TickTimerView, k: nat)
    requires
        t.mode == TimerMode::Repeating,
        t.elapsed == 0,
        !t.finished,
    ensures
        ticked_n(t, k).elapsed == k % (period(t) as nat),
        ticked_n(t, k).finished == (k > 0 && k % (period(t) as nat) == 0),
        ticked_n(t, k).mode == t.mode,
        ticked_n(t, k).duration == t.duration,
        t.times_finished + k / (period(t) as nat) <= usize::MAX ==> ticked_n(t, k).times_finished
            == t.times_finished + k / (period(t) as nat),
    decreases k,
{
    let p = period(t);
    if k > 0 {
        let j = (k - 1) as nat;
        lemma_repeating_timer_period(t, j);
        vstd::arithmetic::div_mod::lemma_fundamental_div_mod(j as int, p);
        vstd::arithmetic::div_mod::lemma_mod_pos_bound(j as int, p);
        let q = j as int / p;
        let e = j as int % p;
        assert(j as int == q * p + e) by (nonlinear_arith)
            requires
                j as int == p * q + e,
        ;
        assert((q + 1) * p == q * p + p) by (nonlinear_arith);
        if e + 1 == p {
            vstd::arithmetic::div_mod::lemma_fundamental_div_mod_converse(k as int, p, q + 1, 0);
        } else {
            vstd::arithmetic::div_mod::lemma_fundamental_div_mod_converse(k as int, p, q, e + 1);
        }
    } else {
        vstd::arithmetic::div_mod::lemma_small_mod(0, p as nat);
    }
}

/// A fresh `Once` timer counts up to one period, is finished from the tick that
/// completes the period on, and then stays as it is; it counts one unchecked finish.
pub proof fn lemma_once_timer_finishes(t: TickTimerView, k: nat)
    requires
        t.mode == TimerMode::Once,
        t.elapsed == 0,
        !t.finished,
    ensures
        ticked_n(t, k).elapsed == if k < period(t) {
            k as int
        } else {
            period(t)
        },
        ticked_n(t, k).finished == (k >= period(t)),
        ticked_n(t, k).mode == t.mode,
        ticked_n(t, k).duration == t.duration,
        t.times_finished < usize::MAX ==> ticked_n(t, k).times_finished == t.times_finished + if k
            >= period(t) {
            1int
        } else {
            0int
        },
    decreases k,
{
    if k > 0 {
        lemma_once_timer_finishes(t, (k - 1) as nat);
    }
}

/// A timer counted in simulation ticks.
pub struct TickTimer {
    duration: usize,
    elapsed: usize,
    finished: bool,
    times_finished_since_last_check: usize,
    mode: TimerMode,
}

impl TickTimer {
    /// Every timer stays in a state that ticking a fresh timer can reach.
    #[verifier::type_invariant]
    spec fn inv(self) -> bool {
        tick_consistent(self@)
    }
}

impl View for TickTimer {
    type V = TickTimerView;

    closed spec fn view(&self) -> TickTimerView {
        TickTimerView {
            duration: self.duration,
            elapsed: self.elapsed,
            finished: self.finished,
            times_finished: self.times_finished_since_last_check,
            mode: self.mode,
        }
    }
}

impl TickTimer {
    /// A fresh timer of `duration` ticks: nothing elapsed, not finished.
    pub fn new(duration: usize, mode: TimerMode) -> (r: Self)
        ensures
            r@ == (TickTimerView {
                duration,
                elapsed: 0,
                finished: false,
                times_finished: 0,
                mode,
            }),
            tick_consistent(r@),
    {
        TickTimer { duration, elapsed: 0, finished: false, times_finished_since_last_check: 0, mode }
    }

    /// Returns true if the timer is currently finished
    pub fn is_finished(&self) -> (r: bool)
        ensures
            r == self@.finished,
    {
        self.finished
    }

    /// Returns true if the timer has finished at least once since it was last checked
    pub fn just_finished(&mut self) -> (r: bool)
        ensures
            r == (old(self)@.times_finished > 0),
            final(self)@ == (TickTimerView { times_finished: 0, ..old(self)@ }),
    {
        proof {
            use_type_invariant(&*self);
        }
        let res = self.times_finished_since_last_check > 0;
        self.times_finished_since_last_check = 0;
        res
    }

    /// How many times the timer has finished since it was last checked.
    pub fn finishes_since_last_check(&self) -> (r: usize)
        ensures
            r == self@.times_finished,
    {
        self.times_finished_since_last_check
    }

    /// The ticks elapsed in the current period.
    pub fn elapsed(&self) -> (r: usize)
        ensures
            r == self@.elapsed,
    {
        self.elapsed
    }

    /// The ticks that one period lasts.
    pub fn duration(&self) -> (r: usize)
        ensures
            r == self@.duration,
    {
        self.duration
    }

    /// Whether the timer runs once or repeats.
    pub fn mode(&self) -> (r: TimerMode)
        ensures
            r == self@.mode,
    {
        self.mode
    }

    /// Advances the timer by one tick.
    pub fn tick(&mut self) -> (r: &Self)
        requires
            old(self)@.times_finished < usize::MAX,
        ensures
            final(self)@ == ticked(old(self)@),
            tick_consistent(final(self)@),
            r@ == final(self)@,
    {
        proof {
            use_type_invariant(&*self);
        }
        if self.mode != TimerMode::Repeating && self.is_finished() {
            return self;
        }
        let elapsed = self.elapsed + 1;
        let finished = elapsed >= self.duration();

        let (elapsed, times_finished_since_last_check) = if finished {
            if self.mode == TimerMode::Repeating {
                (0, self.times_finished_since_last_check + 1)
            } else {
                (elapsed, self.times_finished_since_last_check + 1)
            }
        } else {
            (elapsed, self.times_finished_since_last_check)
        };
        *self = TickTimer {
            duration: self.duration,
            elapsed,
            finished,
            times_finished_since_last_check,
            mode: self.mode,
        };
        self
    }
}

impl Default for TickTimer {
    /// A fresh timer of no duration that runs once.
    fn default() -> (r: Self)
        ensures
            r@ == (TickTimerView {
                duration: 0,
                elapsed: 0,
                finished: false,
                times_finished: 0,
                mode: TimerMode::Once,
            }),
            tick_consistent(r@),
    {
        TickTimer::new(0, TimerMode::Once)
    }
}

} // verus!
