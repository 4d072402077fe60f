//! What the matchmaker tracks about a player's time in the queue.

use rand::Rng;
use vstd::prelude::*;

verus! {

/// After how many seconds of waiting a queued player starts to get frustrated.
pub const FRUSTRATION_WAIT: usize = 300;

/// The fields of a [`QueueStats`].
#[derive(Debug, Clone, Copy, PartialEq, Eq, Structural)]
pub struct QueueStatsView {
    pub wait_time: Option<usize>,
    pub max_wait_time: usize,
}

/// The queue stats for a player: how long they have waited in the current queue,
/// if they are queued at all.
#[derive(Copy, Debug, Clone, PartialEq, PartialOrd)]
pub struct QueueStats {
    wait_time: Option<usize>,
    max_wait_time: usize,
}

impl View for QueueStats {
    type V = QueueStatsView;

    closed spec fn view(&self) -> QueueStatsView {
        QueueStatsView { wait_time: self.wait_time, max_wait_time: self.max_wait_time }
    }
}

impl Default for QueueStats {
    fn default() -> (r: Self)
        ensures
            r@ == (QueueStatsView { wait_time: None, max_wait_time: 0 }),
    {
        QueueStats { wait_time: None, max_wait_time: 0 }
    }
}

impl QueueStats {
    /// The stats of a player who has just entered the queue.
    pub fn new() -> (r: Self)
        ensures
            r@ == (QueueStatsView { wait_time: Some(0), max_wait_time: 0 }),
    {
        QueueStats { wait_time: Some(0), max_wait_time: 0 }
    }

    /// Seconds waited in the current queue, or `None` when not queued.
    pub fn wait_time(&self) -> (r: Option<usize>)
        ensures
            r == self@.wait_time,
    {
        self.wait_time
    }

    /// The longest wait recorded.
    pub fn max_wait_time(&self) -> (r: usize)
        ensures
            r == self@.max_wait_time,
    {
        self.max_wait_time
    }

    /// The player (re)enters the queue: the wait starts at zero.
    pub fn start_waiting(&mut self)
        ensures
            final(self)@ == (QueueStatsView { wait_time: Some(0), ..old(self)@ }),
    {
        self.wait_time = Some(0);
    }

    /// The player leaves the queue for a lobby: no wait is counted.
    pub fn stop_waiting(&mut self)
        ensures
            final(self)@ == (QueueStatsView { wait_time: None, ..old(self)@ }),
    {
        self.wait_time = None;
    }

    /// One second passes: a queued player's wait grows by one. Returns whether the
    /// player has now waited longer than [`FRUSTRATION_WAIT`] and grows frustrated.
    pub fn tick(&mut self) -> (frustrated: bool)
        requires
            old(self)@.wait_time matches Some(w) ==> w < usize::MAX,
        ensures
            final(self)@ == (QueueStatsView {
                wait_time: match old(self)@.wait_time {
                    Some(w) => Some((w + 1) as usize),
                    None => None,
                },
                ..old(self)@
            }),
            frustrated == (final(self)@.wait_time matches Some(w) && w > FRUSTRATION_WAIT),
    {
        if let Some(v) = self.wait_time {
            self.wait_time = Some(v + 1);
        }
        self.wait_time.unwrap_or(0) > FRUSTRATION_WAIT
    }
}


/// Draws a number below `n` from the thread's random number generator: calls
/// `rand::Rng::random_range` on `rand::rng()` with the range `0..n`, which rand
/// documents to return a value within the range and to panic on an empty range. Which
/// number comes back is chance; only that it is below `n` is claimed.
#[verifier::external_body]
fn random_below(n: usize) -> (r: usize)
    requires
        n > 0,
    ensures
        r < n,
{
    rand::rng().random_range(0..n)
}

/// Whether a player's skill moves after a match, given a roll below 100: the roll,
/// raised by 25 after a win, must be above 50.
pub open spec fn skill_moves(roll: int, won: bool) -> bool {
    roll + (if won {
        25int
    } else {
        0int
    }) > 50
}

/// Whether a player's skill moves after a match, given the roll (below 100) that
/// decides it.
pub fn sr_changes(roll: usize, won: bool) -> (r: bool)
    requires
        roll < 100,
    ensures
        r == skill_moves(roll as int, won),
{
    let try_change_sr: usize = roll + if won {
        25
    } else {
        0
    };
    try_change_sr > 50
}

/// Rolls whether a player's skill moves after a match: draws a number below 100 and
/// decides by [`sr_changes`]. Returns the roll and the decision.
pub fn roll_sr_change(won: bool) -> (r: (usize, bool))
    ensures
        r.0 < 100,
        r.1 == skill_moves(r.0 as int, won),
{
    let roll = random_below(100);
    (roll, sr_changes(roll, won))
}

} // verus!
