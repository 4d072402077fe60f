//! Matchmaking over a queue of players kept in order of rating.
//!
//! Whether two queued players may meet in a match depends on their ratings and
//! how long they have waited; that decision is made by the caller and handed in
//! as a square table `allowed`, where `allowed[i][j]` tells whether the players at
//! queue positions `i` and `j` may play together. Everything here works on queue
//! positions.

use vstd::prelude::*;

use crate::player_management::WAIT_BEFORE_GIVE_UP;
use crate::MATCH_PLAYER_COUNT;

verus! {

/// Why a matchmaking request failed.
#[derive(Debug, Clone, Copy, PartialEq, Eq, Structural)]
pub enum MatchmakingFailure {
    /// Matchmaking pool does not contain enough players to create a match
    NotEnoughPlayers,
    /// Failed to remove player from queue: Player not in queue
    PlayerNotInQueue,
}

/// The verdict on a window of queue positions.
#[derive(Debug, Clone, Copy, PartialEq, Eq, Structural)]
pub enum MatchValidityCheckResult {
    /// Contains the last index which is guaranteed to fail. Instructs the matchmaker to move the
    /// start of the window forward to one beyond the provided index.
    InvalidMoveForward(usize),
    /// Contains the index of the player which is guaranteed to fail to make matches. Instructs the
    /// matchmaker to add that player to the skip_list and advance the end of the window forward by
    /// one.
    InvalidAddSkip(usize),
    /// The match is valid. Instructs the matchmaker to move the start of the window to one beyond
    /// the last index of the match.
    Valid,
}

impl MatchValidityCheckResult {
    /// Whether the window may form a match.
    pub fn is_valid(&self) -> (r: bool)
        ensures
            r == (*self is Valid),
    {
        matches!(*self, Self::Valid)
    }

    /// Whether the window may not form a match.
    pub fn is_invalid(&self) -> (r: bool)
        ensures
            r == !(*self is Valid),
    {
        !matches!(*self, Self::Valid)
    }
}

/// `allowed` is a square table over `len` queue positions.
pub open spec fn is_table(allowed: Seq<Vec<bool>>, len: int) -> bool {
    &&& allowed.len() == len
    &&& forall|i: int| 0 <= i < len ==> (#[trigger] allowed[i])@.len() == len
}

/// Two positions of a window do not stand in each other's way: they are the same
/// position, one of them is skipped, or the table allows them to meet.
pub open spec fn pair_ok(allowed: Seq<Vec<bool>>, skip: Seq<usize>, i: int, j: int) -> bool {
    ||| i == j
    ||| skip.contains(i as usize)
    ||| skip.contains(j as usize)
    ||| allowed[i]@[j]
}

/// `(a, b)` comes before `(i, j)` when pairs are read row by row.
pub open spec fn pair_before(a: int, b: int, i: int, j: int) -> bool {
    a < i || (a == i && b < j)
}

/// `(i, j)` is the first pair of positions in `[left, right)`, read row by row,
/// that stand in each other's way.
pub open spec fn is_first_conflict(
    allowed: Seq<Vec<bool>>,
    skip: Seq<usize>,
    left: int,
    right: int,
    i: int,
    j: int,
) -> bool {
    &&& left <= i < right
    &&& left <= j < right
    &&& !pair_ok(allowed, skip, i, j)
    &&& forall|a: int, b: int|
        left <= a < right && left <= b < right && pair_before(a, b, i, j) ==> pair_ok(
            allowed,
            skip,
            a,
            b,
        )
}

/// Every pair of positions in `[left, right)` may meet.
pub open spec fn window_clear(
    allowed: Seq<Vec<bool>>,
    skip: Seq<usize>,
    left: int,
    right: int,
) -> bool {
    forall|i: int, j: int| left <= i < right && left <= j < right ==> pair_ok(allowed, skip, i, j)
}

/// The verdict on the window `[left, right)`: valid when every pair may meet;
/// otherwise, for the first pair that may not, the lower of its two positions.
pub open spec fn check_result(
    allowed: Seq<Vec<bool>>,
    skip: Seq<usize>,
    left: int,
    right: int,
) -> MatchValidityCheckResult {
    if window_clear(allowed, skip, left, right) {
        MatchValidityCheckResult::Valid
    } else {
        let (i, j) = choose|i: int, j: int| is_first_conflict(allowed, skip, left, right, i, j);
        MatchValidityCheckResult::InvalidMoveForward(
            if i < j {
                i as usize
            } else {
                j as usize
            },
        )
    }
}

/// A window that is not clear has a first conflicting pair, and only one.
pub proof fn lemma_first_conflict(
    allowed: Seq<Vec<bool>>,
    skip: Seq<usize>,
    left: int,
    right: int,
)
    requires
        !window_clear(allowed, skip, left, right),
    ensures
        exists|i: int, j: int| is_first_conflict(allowed, skip, left, right, i, j),
        forall|i1: int, j1: int, i2: int, j2: int|
            is_first_conflict(allowed, skip, left, right, i1, j1) && is_first_conflict(
                allowed,
                skip,
                left,
                right,
                i2,
                j2,
            ) ==> i1 == i2 && j1 == j2,
{
    let (i0, j0) = choose|i: int, j: int|
        left <= i < right && left <= j < right && !pair_ok(allowed, skip, i, j);
    lemma_least_conflict_exists(allowed, skip, left, right, i0, j0);
    assert forall|i1: int, j1: int, i2: int, j2: int|
        is_first_conflict(allowed, skip, left, right, i1, j1) && is_first_conflict(
            allowed,
            skip,
            left,
            right,
            i2,
            j2,
        ) implies i1 == i2 && j1 == j2 by {
        if pair_before(i1, j1, i2, j2) {
            assert(pair_ok(allowed, skip, i1, j1));
        } else if pair_before(i2, j2, i1, j1) {
            assert(pair_ok(allowed, skip, i2, j2));
        }
    }
}

proof fn lemma_least_conflict_exists(
    allowed: Seq<Vec<bool>>,
    skip: Seq<usize>,
    left: int,
    right: int,
    i0: int,
    j0: int,
)
    requires
        left <= i0 < right,
        left <= j0 < right,
        !pair_ok(allowed, skip, i0, j0),
    ensures
        exists|i: int, j: int| is_first_conflict(allowed, skip, left, right, i, j),
    decreases (i0 - left) * (right - left) + (j0 - left),
{
    if exists|a: int, b: int|
        left <= a < right && left <= b < right && pair_before(a, b, i0, j0) && !pair_ok(
            allowed,
            skip,
            a,
            b,
        ) {
        let (a, b) = choose|a: int, b: int|
            left <= a < right && left <= b < right && pair_before(a, b, i0, j0) && !pair_ok(
                allowed,
                skip,
                a,
                b,
            );
        assert((a - left) * (right - left) + (b - left) < (i0 - left) * (right - left) + (j0
            - left)) by (nonlinear_arith)
            requires
                left <= a < right,
                left <= b < right,
                left <= i0 < right,
                left <= j0 < right,
                pair_before(a, b, i0, j0),
        ;
        lemma_least_conflict_exists(allowed, skip, left, right, a, b);
    } else {
        assert(is_first_conflict(allowed, skip, left, right, i0, j0));
    }
}

/// Once every pair before `(i, j)` may meet and `(i, j)` may meet, every pair before
/// `(i, j + 1)` may meet.
proof fn lemma_next_pair(
    allowed: Seq<Vec<bool>>,
    skip: Seq<usize>,
    left: int,
    right: int,
    i: int,
    j: int,
)
    requires
        forall|a: int, b: int|
            left <= a < right && left <= b < right && pair_before(a, b, i, j) ==> pair_ok(
                allowed,
                skip,
                a,
                b,
            ),
        pair_ok(allowed, skip, i, j),
    ensures
        forall|a: int, b: int|
            left <= a < right && left <= b < right && pair_before(a, b, i, j + 1) ==> pair_ok(
                allowed,
                skip,
                a,
                b,
            ),
{
    assert forall|a: int, b: int|
        left <= a < right && left <= b < right && pair_before(a, b, i, j + 1) implies pair_ok(
        allowed,
        skip,
        a,
        b,
    ) by {
        if !(a == i && b == j) {
            assert(pair_before(a, b, i, j));
        }
    }
}

/// Whether `value` occurs in `list`.
fn list_contains(list: &Vec<usize>, value: usize) -> (r: bool)
    ensures
        r == list@.contains(value),
{
    let mut k: usize = 0;
    while k < list.len()
        invariant
            k <= list@.len(),
            forall|x: int| 0 <= x < k ==> list@[x] != value,
        decreases list@.len() - k,
    {
        if list[k] == value {
            return true;
        }
        k = k + 1;
    }
    false
}

/// Checks if the match is valid given left bound index inclusive and right bound index
/// exclusive: every two players of the window, other than those on the skip list, must be
/// allowed to meet; otherwise the verdict names the lower position of the first pair that
/// is not.
pub fn check_valid_match(
    allowed: &Vec<Vec<bool>>,
    left_bound: usize,
    right_bound: usize,
    skip_list: &Vec<usize>,
) -> (r: MatchValidityCheckResult)
    requires
        is_table(allowed@, allowed@.len() as int),
        right_bound <= allowed@.len(),
    ensures
        r == check_result(allowed@, skip_list@, left_bound as int, right_bound as int),
        r is Valid <==> window_clear(allowed@, skip_list@, left_bound as int, right_bound as int),
        r matches MatchValidityCheckResult::InvalidMoveForward(k) ==> left_bound <= k
            < right_bound,
        !(r is InvalidAddSkip),
{
    let ghost l = left_bound as int;
    let ghost rb = right_bound as int;
    let mut i = left_bound;
    while i < right_bound
        invariant
            l == left_bound,
            rb == right_bound,
            left_bound <= i,
            i <= right_bound || i == left_bound,
            is_table(allowed@, allowed@.len() as int),
            right_bound <= allowed@.len(),
            forall|a: int, b: int| l <= a < i && l <= b < rb ==> pair_ok(allowed@, skip_list@, a, b),
        decreases right_bound - i,
    {
        let mut j = left_bound;
        while j < right_bound
            invariant
                l == left_bound,
                rb == right_bound,
                left_bound <= i < right_bound,
                left_bound <= j <= right_bound,
                is_table(allowed@, allowed@.len() as int),
                right_bound <= allowed@.len(),
                forall|a: int, b: int|
                    l <= a < rb && l <= b < rb && pair_before(a, b, i as int, j as int) ==> pair_ok(
                        allowed@,
                        skip_list@,
                        a,
                        b,
                    ),
            decreases right_bound - j,
        {
            if i == j {
                proof {
                    lemma_next_pair(allowed@, skip_list@, l, rb, i as int, j as int);
                }
                j = j + 1;
                continue;
            }
            if list_contains(skip_list, i) || list_contains(skip_list, j) {
                proof {
                    lemma_next_pair(allowed@, skip_list@, l, rb, i as int, j as int);
                }
                j = j + 1;
                continue;
            }
            if !allowed[i][j] {
                assert(!pair_ok(allowed@, skip_list@, i as int, j as int));
                let lower = if i < j {
                    i
                } else {
                    j
                };
                proof {
                    assert(is_first_conflict(allowed@, skip_list@, l, rb, i as int, j as int));
                    lemma_first_conflict(allowed@, skip_list@, l, rb);
                }
                return MatchValidityCheckResult::InvalidMoveForward(lower);
            }
            proof {
                lemma_next_pair(allowed@, skip_list@, l, rb, i as int, j as int);
            }
            j = j + 1;
        }
        assert forall|a: int, b: int| l <= a < i + 1 && l <= b < rb implies pair_ok(
            allowed@,
            skip_list@,
            a,
            b,
        ) by {
            assert(pair_before(a, b, i as int, j as int));
        }
        i = i + 1;
    }
    MatchValidityCheckResult::Valid
}


/// The positions of a match whose window starts at `start`: `start`, `start + 1`, ...
pub open spec fn window(start: int) -> Seq<usize> {
    Seq::new(MATCH_PLAYER_COUNT as nat, |x: int| (start + x) as usize)
}

/// The matchmaker's scan of a queue of `len` players from position `m` on. It
/// returns the first positions of the windows that become matches and of the
/// windows whose check failed, in the order the scan meets them.
///
/// At position `m` the scan looks at the window of the players `m` up to
/// `m + MATCH_PLAYER_COUNT` (exclusive). If the queue ends before the window is full,
/// the scan ends. If a player follows the window and may not meet player `m`, the scan
/// gives up on `m` and moves on to `m + 1`. If every two players of the
/// window may meet, the window becomes a match and the scan goes on right after it.
/// Otherwise the window fails, and the scan goes on one past the lower position of
/// its first conflicting pair.
pub open spec fn plan_from(allowed: Seq<Vec<bool>>, len: int, m: int) -> (Seq<int>, Seq<int>)
    decreases len - m,
{
    let n = m + MATCH_PLAYER_COUNT;
    if m < 0 || n > len {
        (Seq::empty(), Seq::empty())
    } else if n < len && !allowed[m]@[n] {
        plan_from(allowed, len, m + 1)
    } else {
        match check_result(allowed, Seq::empty(), m, n) {
            MatchValidityCheckResult::Valid => {
                let rest = plan_from(allowed, len, n);
                (seq![m] + rest.0, rest.1)
            },
            MatchValidityCheckResult::InvalidMoveForward(k) => {
                if m <= k < n {
                    let rest = plan_from(allowed, len, k + 1);
                    (rest.0, seq![m] + rest.1)
                } else {
                    (Seq::empty(), Seq::empty())
                }
            },
            MatchValidityCheckResult::InvalidAddSkip(_) => (Seq::empty(), Seq::empty()),
        }
    }
}

/// Where the scan starts: at the front of the queue, or, when the highest rated
/// players have priority, past the remainder of the queue length modulo the match size,
/// so that the windows line up with the top of the queue.
pub open spec fn first_start(len: int, prioritize_high: bool) -> int {
    if prioritize_high {
        len % (MATCH_PLAYER_COUNT as int)
    } else {
        0
    }
}

/// What one run of the matchmaker decided.
pub struct MatchPlan {
    /// The queue positions of each match, in the order the matches were made.
    pub games: Vec<[usize; MATCH_PLAYER_COUNT]>,
    /// The windows `(first, one past last)` whose players all failed to match once more.
    pub failed_windows: Vec<(usize, usize)>,
    /// The positions that were skipped, each once per skip.
    pub skipped: Vec<usize>,
}

/// Every match the scan makes is a window of consecutive positions within the queue
/// whose first player may meet the player after it, if there is one, and every two players of the window may meet; the matches come in queue order and never share a player. Every
/// failed window lies within the queue and has a pair that may not meet.
pub proof fn lemma_plan_sound(allowed: Seq<Vec<bool>>, len: int, m: int)
    requires
        is_table(allowed, len),
        0 <= m,
    ensures
        ({
            let p = plan_from(allowed, len, m);
            &&& forall|k: int|
                #![trigger p.0[k]]
                0 <= k < p.0.len() ==> {
                    let s = p.0[k];
                    &&& m <= s
                    &&& s + MATCH_PLAYER_COUNT <= len
                    &&& s + MATCH_PLAYER_COUNT < len ==> allowed[s]@[s + MATCH_PLAYER_COUNT]
                    &&& window_clear(allowed, Seq::empty(), s, s + MATCH_PLAYER_COUNT)
                }
            &&& forall|k1: int, k2: int|
                0 <= k1 < k2 < p.0.len() ==> #[trigger] p.0[k1] + MATCH_PLAYER_COUNT
                    <= #[trigger] p.0[k2]
            &&& forall|k: int|
                #![trigger p.1[k]]
                0 <= k < p.1.len() ==> {
                    let s = p.1[k];
                    &&& m <= s
                    &&& s + MATCH_PLAYER_COUNT <= len
                    &&& !window_clear(allowed, Seq::empty(), s, s + MATCH_PLAYER_COUNT)
                }
        }),
    decreases len - m,
{
    let n = m + MATCH_PLAYER_COUNT;
    if m < 0 || n > len {
    } else if n < len && !allowed[m]@[n] {
        lemma_plan_sound(allowed, len, m + 1);
        assert(plan_from(allowed, len, m) == plan_from(allowed, len, m + 1));
    } else {
        match check_result(allowed, Seq::empty(), m, n) {
            MatchValidityCheckResult::Valid => {
                lemma_plan_sound(allowed, len, n);
                let rest = plan_from(allowed, len, n);
                let p = plan_from(allowed, len, m);
                assert(p.0 =~= seq![m] + rest.0);
                assert forall|k: int| #![trigger p.0[k]] 0 <= k < p.0.len() implies {
                    let s = p.0[k];
                    &&& m <= s
                    &&& s + MATCH_PLAYER_COUNT <= len
                    &&& s + MATCH_PLAYER_COUNT < len ==> allowed[s]@[s + MATCH_PLAYER_COUNT]
                    &&& window_clear(allowed, Seq::empty(), s, s + MATCH_PLAYER_COUNT)
                } by {
                    if k > 0 {
                        assert(p.0[k] == rest.0[k - 1]);
                    }
                }
                assert forall|k1: int, k2: int|
                    0 <= k1 < k2 < p.0.len() implies #[trigger] p.0[k1] + MATCH_PLAYER_COUNT
                    <= #[trigger] p.0[k2] by {
                    assert(p.0[k2] == rest.0[k2 - 1]);
                    if k1 > 0 {
                        assert(p.0[k1] == rest.0[k1 - 1]);
                    }
                }
            },
            MatchValidityCheckResult::InvalidMoveForward(k) => {
                if m <= k < n {
                    lemma_plan_sound(allowed, len, k + 1);
                    let rest = plan_from(allowed, len, k + 1);
                    let p = plan_from(allowed, len, m);
                    assert(p.1 =~= seq![m] + rest.1);
                    assert(p.0 == rest.0);
                    assert forall|j: int| #![trigger p.1[j]] 0 <= j < p.1.len() implies {
                        let s = p.1[j];
                        &&& m <= s
                        &&& s + MATCH_PLAYER_COUNT <= len
                        &&& !window_clear(allowed, Seq::empty(), s, s + MATCH_PLAYER_COUNT)
                    } by {
                        if j > 0 {
                            assert(p.1[j] == rest.1[j - 1]);
                        }
                    }
                }
            },
            MatchValidityCheckResult::InvalidAddSkip(_) => {},
        }
    }
}

/// When every two players of the queue may meet, the scan makes as many matches as
/// there are whole windows of `MATCH_PLAYER_COUNT` players from where it starts, and no
/// window fails.
pub proof fn lemma_plan_all_compatible(allowed: Seq<Vec<bool>>, len: int, m: int)
    requires
        is_table(allowed, len),
        forall|i: int, j: int| 0 <= i < len && 0 <= j < len ==> #[trigger] allowed[i]@[j],
        0 <= m <= len,
    ensures
        plan_from(allowed, len, m).0.len() == (len - m) / (MATCH_PLAYER_COUNT as int),
        plan_from(allowed, len, m).1.len() == 0,
        forall|k: int|
            0 <= k < plan_from(allowed, len, m).0.len() ==> #[trigger] plan_from(
                allowed,
                len,
                m,
            ).0[k] == m + MATCH_PLAYER_COUNT * k,
    decreases len - m,
{
    let n = m + MATCH_PLAYER_COUNT;
    if n <= len {
        assert(window_clear(allowed, Seq::empty(), m, n));
        lemma_plan_all_compatible(allowed, len, n);
        let p = plan_from(allowed, len, m);
        let rest = plan_from(allowed, len, n);
        assert(p.0 =~= seq![m] + rest.0);
        assert forall|k: int| 0 <= k < p.0.len() implies #[trigger] p.0[k] == m
            + MATCH_PLAYER_COUNT * k by {
            if k > 0 {
                assert(p.0[k] == rest.0[k - 1]);
            }
        }
        assert((len - m) / (MATCH_PLAYER_COUNT as int) == (len - n) / (MATCH_PLAYER_COUNT as int)
            + 1) by {
            vstd::arithmetic::div_mod::lemma_div_plus_one(len - n, MATCH_PLAYER_COUNT as int);
        }
    } else {
        vstd::arithmetic::div_mod::lemma_basic_div(len - m, MATCH_PLAYER_COUNT as int);
    }
}

/// Where the scan starts decides which players it favours. With the high end of the
/// queue prioritized, every match lies at or above position `len % MATCH_PLAYER_COUNT`,
/// so the players that may be left over are the lowest rated; and when everyone may
/// meet everyone, the matches are exactly the windows from that position up to the
/// top of the queue. Otherwise the matches are the windows from the bottom up.
pub proof fn lemma_scan_start(allowed: Seq<Vec<bool>>, len: int)
    requires
        is_table(allowed, len),
    ensures
        forall|k: int|
            0 <= k < plan_from(allowed, len, first_start(len, true)).0.len() ==> len
                % (MATCH_PLAYER_COUNT as int) <= #[trigger] plan_from(
                allowed,
                len,
                first_start(len, true),
            ).0[k],
        (forall|i: int, j: int| 0 <= i < len && 0 <= j < len ==> #[trigger] allowed[i]@[j])
            ==> {
            let high = plan_from(allowed, len, first_start(len, true)).0;
            let low = plan_from(allowed, len, first_start(len, false)).0;
            &&& high.len() == len / (MATCH_PLAYER_COUNT as int)
            &&& low.len() == len / (MATCH_PLAYER_COUNT as int)
            &&& forall|k: int|
                0 <= k < high.len() ==> #[trigger] high[k] == len % (MATCH_PLAYER_COUNT as int)
                    + MATCH_PLAYER_COUNT * k
            &&& forall|k: int| 0 <= k < low.len() ==> #[trigger] low[k] == MATCH_PLAYER_COUNT * k
            &&& forall|k: int|
                0 <= k < high.len() ==> high[k] + MATCH_PLAYER_COUNT <= len
        },
{
    let c = MATCH_PLAYER_COUNT as int;
    let r = len % c;
    lemma_plan_sound(allowed, len, first_start(len, true));
    lemma_plan_sound(allowed, len, first_start(len, false));
    if forall|i: int, j: int| 0 <= i < len && 0 <= j < len ==> #[trigger] allowed[i]@[j] {
        vstd::arithmetic::div_mod::lemma_mod_pos_bound(len, c);
        if len < c {
            vstd::arithmetic::div_mod::lemma_small_mod(len as nat, c as nat);
        }
        lemma_plan_all_compatible(allowed, len, r);
        lemma_plan_all_compatible(allowed, len, 0);
        vstd::arithmetic::div_mod::lemma_fundamental_div_mod(len, c);
        vstd::arithmetic::div_mod::lemma_fundamental_div_mod_converse(len - r, c, len / c, 0);
    }
}

/// Attempt to make as many valid matches as possible.
///
/// Scans the queue in windows of `MATCH_PLAYER_COUNT` players as [`plan_from`]
/// describes, starting where [`first_start`] says, and reports the matches made,
/// the windows that failed and the positions skipped.
pub fn make_matches(allowed: &Vec<Vec<bool>>, prioritize_high: bool) -> (plan: MatchPlan)
    requires
        is_table(allowed@, allowed@.len() as int),
        allowed@.len() + MATCH_PLAYER_COUNT <= usize::MAX,
    ensures
        ({
            let p = plan_from(
                allowed@,
                allowed@.len() as int,
                first_start(allowed@.len() as int, prioritize_high),
            );
            &&& plan.games@.len() == p.0.len()
            &&& forall|k: int|
                0 <= k < p.0.len() ==> (#[trigger] plan.games@[k])@ == window(p.0[k])
            &&& plan.failed_windows@.len() == p.1.len()
            &&& forall|k: int|
                0 <= k < p.1.len() ==> #[trigger] plan.failed_windows@[k] == (
                    p.1[k] as usize,
                    (p.1[k] + MATCH_PLAYER_COUNT) as usize,
                )
            &&& plan.skipped@.len() == 0
        }),
        forall|k: int|
            #![trigger plan.games@[k]]
            0 <= k < plan.games@.len() ==> {
                let s = plan.games@[k][0] as int;
                &&& s + MATCH_PLAYER_COUNT <= allowed@.len()
                &&& s + MATCH_PLAYER_COUNT < allowed@.len() ==> allowed@[s]@[s + MATCH_PLAYER_COUNT]
                &&& window_clear(allowed@, Seq::empty(), s, s + MATCH_PLAYER_COUNT)
            },
        forall|k1: int, k2: int|
            0 <= k1 < k2 < plan.games@.len() ==> #[trigger] plan.games@[k1][MATCH_PLAYER_COUNT
                - 1] < #[trigger] plan.games@[k2][0],
        prioritize_high ==> forall|k: int|
            0 <= k < plan.games@.len() ==> allowed@.len() % (MATCH_PLAYER_COUNT as nat)
                <= #[trigger] plan.games@[k][0],
        (forall|i: int, j: int|
            0 <= i < allowed@.len() && 0 <= j < allowed@.len() ==> #[trigger] allowed@[i]@[j])
            ==> {
            &&& plan.games@.len() == allowed@.len() / (MATCH_PLAYER_COUNT as nat)
            &&& forall|k: int|
                0 <= k < plan.games@.len() ==> #[trigger] plan.games@[k][0] == (if prioritize_high {
                    allowed@.len() % (MATCH_PLAYER_COUNT as nat)
                } else {
                    0
                }) + MATCH_PLAYER_COUNT * k
        },
{
    proof {
        lemma_scan_start(allowed@, allowed@.len() as int);
        lemma_plan_sound(
            allowed@,
            allowed@.len() as int,
            first_start(allowed@.len() as int, prioritize_high),
        );
    }
    let len = allowed.len();
    let ghost target = plan_from(allowed@, len as int, first_start(len as int, prioritize_high));
    let mut games: Vec<[usize; MATCH_PLAYER_COUNT]> = Vec::new();
    let mut failed_windows: Vec<(usize, usize)> = Vec::new();
    let mut skipped: Vec<usize> = Vec::new();

    let skip = if prioritize_high {
        len % MATCH_PLAYER_COUNT
    } else {
        0
    };

    let mut m = skip;
    let mut skip_list: Vec<usize> = Vec::new();
    let ghost mut made: Seq<int> = Seq::empty();
    let ghost mut failed: Seq<int> = Seq::empty();
    while m < len
        invariant
            len == allowed@.len(),
            is_table(allowed@, len as int),
            len + MATCH_PLAYER_COUNT <= usize::MAX,
            m <= len,
            target == plan_from(allowed@, len as int, first_start(len as int, prioritize_high)),
            made + plan_from(allowed@, len as int, m as int).0 == target.0,
            failed + plan_from(allowed@, len as int, m as int).1 == target.1,
            games@.len() == made.len(),
            forall|k: int| 0 <= k < made.len() ==> (#[trigger] games@[k])@ == window(made[k]),
            failed_windows@.len() == failed.len(),
            forall|k: int|
                0 <= k < failed.len() ==> #[trigger] failed_windows@[k] == (
                    failed[k] as usize,
                    (failed[k] + MATCH_PLAYER_COUNT) as usize,
                ),
            skip_list@ == Seq::<usize>::empty(),
            skipped@.len() == 0,
        decreases len - m,
    {
        let m0 = m;
        let mut n = m + MATCH_PLAYER_COUNT;
        // set once the window start has been moved on from `m0`
        let mut moved = false;
        while !moved && n <= len
            invariant
                len == allowed@.len(),
                is_table(allowed@, len as int),
                len + MATCH_PLAYER_COUNT <= usize::MAX,
                m0 < len,
                !moved ==> m == m0 && n == m0 + MATCH_PLAYER_COUNT,
                moved ==> m0 < m <= len,
                target == plan_from(allowed@, len as int, first_start(len as int, prioritize_high)),
                made + plan_from(allowed@, len as int, m as int).0 == target.0,
                failed + plan_from(allowed@, len as int, m as int).1 == target.1,
                games@.len() == made.len(),
                forall|k: int| 0 <= k < made.len() ==> (#[trigger] games@[k])@ == window(made[k]),
                failed_windows@.len() == failed.len(),
                forall|k: int|
                    0 <= k < failed.len() ==> #[trigger] failed_windows@[k] == (
                        failed[k] as usize,
                        (failed[k] + MATCH_PLAYER_COUNT) as usize,
                    ),
                skip_list@ == Seq::<usize>::empty(),
                skipped@.len() == 0,
            decreases len - n + (if moved {
                0int
            } else {
                1int
            }),
        {
            if n < len && !allowed[m][n] {
                // In this scenario, no match can possibly be made beginning at pM
                m = m + 1;
                moved = true;
            } else {
                // The list M through N should contain exactly len(skip_list) more players than
                // MATCH_PLAYER_COUNT
                if n - m - skip_list.len() != MATCH_PLAYER_COUNT {
                    skip_list.clear();
                }
                let match_check_result = check_valid_match(allowed, m, n, &skip_list);

                if match_check_result.is_valid() {
                    // all players m through n excluding those skipped are added to a game,
                    // then the window moves forward to n
                    let mut game: [usize; MATCH_PLAYER_COUNT] = [0; MATCH_PLAYER_COUNT];
                    let mut game_index: usize = 0;
                    let mut player_index = m;
                    while player_index < n
                        invariant
                            m <= player_index <= n,
                            n == m + MATCH_PLAYER_COUNT,
                            skip_list@ == Seq::<usize>::empty(),
                            game_index == player_index - m,
                            forall|x: int| 0 <= x < game_index ==> game@[x] == m + x,
                        decreases n - player_index,
                    {
                        if list_contains(&skip_list, player_index) {
                            player_index = player_index + 1;
                            continue;
                        }
                        game[game_index] = player_index;
                        game_index = game_index + 1;
                        player_index = player_index + 1;
                    }
                    assert(game@ =~= window(m as int));
                    games.push(game);
                    proof {
                        let rest = plan_from(allowed@, len as int, n as int);
                        assert(plan_from(allowed@, len as int, m as int).0 =~= seq![m as int]
                            + rest.0);
                        assert(made.push(m as int) + rest.0 =~= made + (seq![m as int] + rest.0));
                        made = made.push(m as int);
                    }
                    m = n;
                    skip_list.clear();
                    moved = true;
                } else {
                    match match_check_result {
                        MatchValidityCheckResult::InvalidMoveForward(index) => {
                            failed_windows.push((m, n));
                            proof {
                                let rest = plan_from(allowed@, len as int, index + 1);
                                assert(plan_from(allowed@, len as int, m as int).1 =~= seq![
                                    m as int,
                                ] + rest.1);
                                assert(failed.push(m as int) + rest.1 =~= failed + (seq![
                                    m as int,
                                ] + rest.1));
                                failed = failed.push(m as int);
                            }
                            m = index + 1;
                            skip_list.clear();
                            moved = true;
                        },
                        MatchValidityCheckResult::InvalidAddSkip(index) => {
                            skip_list.push(index);
                            skipped.push(index);
                            n = n + 1;
                        },
                        MatchValidityCheckResult::Valid => {},
                    }
                }
            }
        }
        if !moved {
            m = m + 1;
            skip_list.clear();
        }
    }
    assert(made =~= target.0);
    assert(failed =~= target.1);
    MatchPlan { games, failed_windows, skipped }
}


/// Queue position `i` belongs to one of the games.
pub open spec fn in_some_game(games: Seq<[usize; MATCH_PLAYER_COUNT]>, i: int) -> bool {
    exists|k: int, x: int|
        0 <= k < games.len() && 0 <= x < MATCH_PLAYER_COUNT && #[trigger] games[k]@[x] == i
}

/// The positions among the first `len` of the queue that belong to none of the games,
/// in queue order.
pub open spec fn unmatched_positions(len: int, games: Seq<[usize; MATCH_PLAYER_COUNT]>) -> Seq<
    int,
>
    decreases len,
{
    if len <= 0 {
        Seq::empty()
    } else if in_some_game(games, len - 1) {
        unmatched_positions(len - 1, games)
    } else {
        unmatched_positions(len - 1, games).push(len - 1)
    }
}

/// The players left in the queue are exactly those in no game, each once and in
/// queue order: the positions kept lie within the queue, belong to no game and rise
/// strictly, and every position of the queue that belongs to no game is kept. So as
/// many are kept as the queue has positions outside the games.
pub proof fn lemma_unmatched_positions(len: int, games: Seq<[usize; MATCH_PLAYER_COUNT]>)
    ensures
        forall|j: int|
            0 <= j < unmatched_positions(len, games).len() ==> {
                let i = #[trigger] unmatched_positions(len, games)[j];
                0 <= i < len && !in_some_game(games, i)
            },
        forall|a: int, b: int|
            0 <= a < b < unmatched_positions(len, games).len() ==> #[trigger] unmatched_positions(
                len,
                games,
            )[a] < #[trigger] unmatched_positions(len, games)[b],
        forall|i: int|
            0 <= i < len && !in_some_game(games, i) ==> #[trigger] unmatched_positions(
                len,
                games,
            ).contains(i),
    decreases len,
{
    if len > 0 {
        lemma_unmatched_positions(len - 1, games);
        let prev = unmatched_positions(len - 1, games);
        let r = unmatched_positions(len, games);
        if !in_some_game(games, len - 1) {
            assert(r == prev.push(len - 1));
            assert forall|i: int| 0 <= i < len && !in_some_game(games, i) implies r.contains(
                i,
            ) by {
                if i == len - 1 {
                    assert(r[prev.len() as int] == i);
                } else {
                    assert(prev.contains(i));
                    let w = choose|w: int| 0 <= w < prev.len() && prev[w] == i;
                    assert(r[w] == i);
                }
            }
            assert forall|a: int, b: int| 0 <= a < b < r.len() implies #[trigger] r[a]
                < #[trigger] r[b] by {
                if b < prev.len() {
                    assert(r[a] == prev[a] && r[b] == prev[b]);
                } else {
                    assert(r[a] == prev[a]);
                }
            }
        } else {
            assert forall|i: int| 0 <= i < len && !in_some_game(games, i) implies r.contains(
                i,
            ) by {
                assert(prev.contains(i));
            }
        }
    }
}

/// Takes the players of the planned games out of the queue: returns, for each game,
/// the players at its positions, and leaves in the queue the other players in their
/// order.
pub fn take_matched_players<P: Copy>(
    queue: &mut Vec<P>,
    games: &Vec<[usize; MATCH_PLAYER_COUNT]>,
) -> (r: Vec<[P; MATCH_PLAYER_COUNT]>)
    requires
        forall|k: int, x: int|
            0 <= k < games@.len() && 0 <= x < MATCH_PLAYER_COUNT ==> #[trigger] games@[k]@[x]
                < old(queue)@.len(),
    ensures
        r@.len() == games@.len(),
        forall|k: int, x: int|
            0 <= k < games@.len() && 0 <= x < MATCH_PLAYER_COUNT ==> #[trigger] r@[k]@[x]
                == old(queue)@[games@[k]@[x] as int],
        final(queue)@ == unmatched_positions(old(queue)@.len() as int, games@).map_values(
            |i: int| old(queue)@[i],
        ),
        forall|i: int|
            0 <= i < old(queue)@.len() && !in_some_game(games@, i) ==> final(queue)@.contains(
                #[trigger] old(queue)@[i],
            ),
{
    proof {
        lemma_unmatched_positions(queue@.len() as int, games@);
    }
    // Grab the players out of the queue
    let mut player_games: Vec<[P; MATCH_PLAYER_COUNT]> = Vec::new();
    let mut g: usize = 0;
    while g < games.len()
        invariant
            g <= games@.len(),
            player_games@.len() == g,
            forall|k: int, x: int|
                0 <= k < games@.len() && 0 <= x < MATCH_PLAYER_COUNT ==> #[trigger] games@[k]@[x]
                    < queue@.len(),
            forall|k: int, x: int|
                0 <= k < g && 0 <= x < MATCH_PLAYER_COUNT ==> #[trigger] player_games@[k]@[x]
                    == queue@[games@[k]@[x] as int],
        decreases games@.len() - g,
    {
        let game = games[g];
        assert(game@[0] == games@[g as int]@[0]);
        let mut player_game: [P; MATCH_PLAYER_COUNT] = [queue[game[0]]; MATCH_PLAYER_COUNT];
        let mut k: usize = 0;
        while k < MATCH_PLAYER_COUNT
            invariant
                k <= MATCH_PLAYER_COUNT,
                game == games@[g as int],
                forall|x: int| 0 <= x < MATCH_PLAYER_COUNT ==> #[trigger] game@[x] < queue@.len(),
                forall|x: int| 0 <= x < k ==> player_game@[x] == queue@[game@[x] as int],
            decreases MATCH_PLAYER_COUNT - k,
        {
            player_game[k] = queue[game[k]];
            k = k + 1;
        }
        player_games.push(player_game);
        g = g + 1;
    }

    // Remove those players
    let mut remove_queue: Vec<usize> = Vec::new();
    let mut g: usize = 0;
    while g < games.len()
        invariant
            g <= games@.len(),
            forall|v: usize| remove_queue@.contains(v) ==> in_some_game(games@, v as int),
            forall|k: int, x: int|
                0 <= k < g && 0 <= x < MATCH_PLAYER_COUNT ==> remove_queue@.contains(
                    #[trigger] games@[k]@[x],
                ),
        decreases games@.len() - g,
    {
        let game = games[g];
        let mut k: usize = 0;
        while k < MATCH_PLAYER_COUNT
            invariant
                k <= MATCH_PLAYER_COUNT,
                g < games@.len(),
                game == games@[g as int],
                forall|v: usize| remove_queue@.contains(v) ==> in_some_game(games@, v as int),
                forall|k2: int, x: int|
                    0 <= k2 < g && 0 <= x < MATCH_PLAYER_COUNT ==> remove_queue@.contains(
                        #[trigger] games@[k2]@[x],
                    ),
                forall|x: int| 0 <= x < k ==> remove_queue@.contains(#[trigger] game@[x]),
            decreases MATCH_PLAYER_COUNT - k,
        {
            let ghost before = remove_queue@;
            remove_queue.push(game[k]);
            assert forall|v: usize| remove_queue@.contains(v) implies in_some_game(
                games@,
                v as int,
            ) by {
                if !before.contains(v) {
                    let w = choose|w: int| 0 <= w < remove_queue@.len() && remove_queue@[w] == v;
                    assert(w == before.len());
                    assert(games@[g as int]@[k as int] == v);
                }
            }
            assert forall|x: int| 0 <= x < k + 1 implies remove_queue@.contains(
                #[trigger] game@[x],
            ) by {
                if x < k {
                    assert(before.contains(game@[x]));
                    let w = choose|w: int| 0 <= w < before.len() && before[w] == game@[x];
                    assert(remove_queue@[w] == game@[x]);
                } else {
                    assert(remove_queue@[before.len() as int] == game@[x]);
                }
            }
            assert forall|k2: int, x: int|
                0 <= k2 < g && 0 <= x < MATCH_PLAYER_COUNT implies remove_queue@.contains(
                #[trigger] games@[k2]@[x],
            ) by {
                assert(before.contains(games@[k2]@[x]));
                let w = choose|w: int| 0 <= w < before.len() && before[w] == games@[k2]@[x];
                assert(remove_queue@[w] == games@[k2]@[x]);
            }
            k = k + 1;
        }
        g = g + 1;
    }

    let ghost old_queue = queue@;
    let mut kept: Vec<P> = Vec::new();
    let mut i: usize = 0;
    while i < queue.len()
        invariant
            i <= queue@.len(),
            queue@ == old_queue,
            forall|v: usize| remove_queue@.contains(v) ==> in_some_game(games@, v as int),
            forall|k: int, x: int|
                0 <= k < games@.len() && 0 <= x < MATCH_PLAYER_COUNT ==> remove_queue@.contains(
                    #[trigger] games@[k]@[x],
                ),
            kept@ == unmatched_positions(i as int, games@).map_values(|j: int| old_queue[j]),
        decreases queue@.len() - i,
    {
        let removed = list_contains(&remove_queue, i);
        if !removed {
            kept.push(queue[i]);
        }
        proof {
            if removed {
                assert(in_some_game(games@, i as int));
            } else {
                assert(!in_some_game(games@, i as int));
            }
            assert(kept@ =~= unmatched_positions(i + 1, games@).map_values(
                |j: int| old_queue[j],
            ));
        }
        i = i + 1;
    }
    proof {
        let u = unmatched_positions(old_queue.len() as int, games@);
        assert forall|i: int|
            0 <= i < old_queue.len() && !in_some_game(games@, i) implies kept@.contains(
            #[trigger] old_queue[i],
        ) by {
            assert(u.contains(i));
            let w = choose|w: int| 0 <= w < u.len() && u[w] == i;
            assert(kept@[w] == old_queue[i]);
        }
    }
    *queue = kept;
    player_games
}

/// The queue after one tick, as pairs of a player and its wait: every player has
/// waited one tick more, and those whose wait is now past [`WAIT_BEFORE_GIVE_UP`]
/// are gone; the others keep their order.
pub open spec fn queue_after_tick<P>(queue: Seq<(P, usize)>) -> Seq<(P, usize)>
    decreases queue.len(),
{
    if queue.len() == 0 {
        Seq::empty()
    } else {
        let rest = queue_after_tick(queue.drop_last());
        let (player, wait) = queue.last();
        if wait + 1 <= WAIT_BEFORE_GIVE_UP {
            rest.push((player, (wait + 1) as usize))
        } else {
            rest
        }
    }
}

/// The players who give up on a tick of the queue, in queue order: those whose wait
/// passes [`WAIT_BEFORE_GIVE_UP`] on it.
pub open spec fn giving_up_on_tick<P>(queue: Seq<(P, usize)>) -> Seq<P>
    decreases queue.len(),
{
    if queue.len() == 0 {
        Seq::empty()
    } else {
        let rest = giving_up_on_tick(queue.drop_last());
        let (player, wait) = queue.last();
        if wait + 1 <= WAIT_BEFORE_GIVE_UP {
            rest
        } else {
            rest.push(player)
        }
    }
}

/// A tick of the queue loses nobody: every player either stays queued or gives up.
pub proof fn lemma_tick_keeps_every_player<P>(queue: Seq<(P, usize)>)
    ensures
        queue_after_tick(queue).len() + giving_up_on_tick(queue).len() == queue.len(),
    decreases queue.len(),
{
    if queue.len() > 0 {
        lemma_tick_keeps_every_player(queue.drop_last());
    }
}

/// Everyone who gives up on a tick was queued and has waited past the limit.
proof fn lemma_tick_gone_come_from_queue<P>(queue: Seq<(P, usize)>)
    ensures
        forall|j: int|
            #![trigger giving_up_on_tick(queue)[j]]
            0 <= j < giving_up_on_tick(queue).len() ==> exists|i: int|
                #![trigger queue[i]]
                0 <= i < queue.len() && queue[i].1 + 1 > WAIT_BEFORE_GIVE_UP
                    && giving_up_on_tick(queue)[j] == queue[i].0,
    decreases queue.len(),
{
    if queue.len() > 0 {
        let front = queue.drop_last();
        lemma_tick_gone_come_from_queue(front);
        let gone0 = giving_up_on_tick(front);
        let gone = giving_up_on_tick(queue);
        let last = queue.len() - 1;
        assert forall|j: int| #![trigger gone[j]] 0 <= j < gone.len() implies exists|i: int|
            #![trigger queue[i]]
            0 <= i < queue.len() && queue[i].1 + 1 > WAIT_BEFORE_GIVE_UP && gone[j]
                == queue[i].0 by {
            if j < gone0.len() {
                assert(gone[j] == gone0[j]);
                let i = choose|i: int|
                    #![trigger front[i]]
                    0 <= i < front.len() && front[i].1 + 1 > WAIT_BEFORE_GIVE_UP && gone0[j]
                        == front[i].0;
                assert(front[i] == queue[i]);
            } else {
                assert(gone == gone0.push(queue.last().0));
                assert(gone[j] == queue[last].0);
                assert(queue[last].1 + 1 > WAIT_BEFORE_GIVE_UP);
            }
        }
    }
}

/// What a tick of the queue does to each player: everyone who stays has waited one
/// tick more and at most [`WAIT_BEFORE_GIVE_UP`]; a player whose wait does not pass the
/// limit stays, with the wait one tick longer, and one whose wait passes it gives up;
/// nobody else appears in either list, and both keep queue order.
pub proof fn lemma_tick_queue_players<P>(queue: Seq<(P, usize)>)
    ensures
        forall|j: int|
            0 <= j < queue_after_tick(queue).len() ==> 1 <= (
            #[trigger] queue_after_tick(queue)[j]).1 <= WAIT_BEFORE_GIVE_UP,
        forall|i: int|
            0 <= i < queue.len() && queue[i].1 + 1 <= WAIT_BEFORE_GIVE_UP
                ==> queue_after_tick(queue).contains(
                (#[trigger] queue[i].0, (queue[i].1 + 1) as usize),
            ),
        forall|i: int|
            0 <= i < queue.len() && queue[i].1 + 1 > WAIT_BEFORE_GIVE_UP
                ==> giving_up_on_tick(queue).contains(#[trigger] queue[i].0),
        forall|j: int|
            0 <= j < queue_after_tick(queue).len() ==> exists|i: int|
                0 <= i < queue.len() && #[trigger] queue_after_tick(queue)[j] == (
                    queue[i].0,
                    (queue[i].1 + 1) as usize,
                ),
        forall|j: int|
            #![trigger giving_up_on_tick(queue)[j]]
            0 <= j < giving_up_on_tick(queue).len() ==> exists|i: int|
                #![trigger queue[i]]
                0 <= i < queue.len() && queue[i].1 + 1 > WAIT_BEFORE_GIVE_UP
                    && giving_up_on_tick(queue)[j] == queue[i].0,
        queue_after_tick(queue).len() + giving_up_on_tick(queue).len() == queue.len(),
    decreases queue.len(),
{
    lemma_tick_keeps_every_player(queue);
    lemma_tick_gone_come_from_queue(queue);
    if queue.len() > 0 {
        let front = queue.drop_last();
        lemma_tick_queue_players(front);
        let kept0 = queue_after_tick(front);
        let gone0 = giving_up_on_tick(front);
        let kept = queue_after_tick(queue);
        let gone = giving_up_on_tick(queue);
        let last = queue.len() - 1;
        let (player, wait) = queue.last();
        if wait + 1 <= WAIT_BEFORE_GIVE_UP {
            assert(kept == kept0.push((player, (wait + 1) as usize)));
            assert(gone == gone0);
            assert forall|i: int|
                0 <= i < queue.len() && queue[i].1 + 1 <= WAIT_BEFORE_GIVE_UP implies kept.contains(
                (#[trigger] queue[i].0, (queue[i].1 + 1) as usize),
            ) by {
                if i == last {
                    assert(kept[kept0.len() as int] == (player, (wait + 1) as usize));
                } else {
                    assert(front[i] == queue[i]);
                    assert(kept0.contains((front[i].0, (front[i].1 + 1) as usize)));
                    let w = choose|w: int|
                        0 <= w < kept0.len() && kept0[w] == (front[i].0, (front[i].1 + 1) as usize);
                    assert(kept[w] == kept0[w]);
                }
            }
            assert forall|i: int|
                0 <= i < queue.len() && queue[i].1 + 1 > WAIT_BEFORE_GIVE_UP implies gone.contains(
                #[trigger] queue[i].0,
            ) by {
                assert(i != last);
                assert(front[i] == queue[i]);
                assert(gone0.contains(front[i].0));
            }
            assert forall|j: int| 0 <= j < kept.len() implies exists|i: int|
                0 <= i < queue.len() && #[trigger] kept[j] == (
                    queue[i].0,
                    (queue[i].1 + 1) as usize,
                ) by {
                if j == kept0.len() {
                    assert(kept[j] == (queue[last].0, (queue[last].1 + 1) as usize));
                } else {
                    assert(kept[j] == kept0[j]);
                    let i = choose|i: int|
                        0 <= i < front.len() && #[trigger] kept0[j] == (
                            front[i].0,
                            (front[i].1 + 1) as usize,
                        );
                    assert(front[i] == queue[i]);
                }
            }
        } else {
            assert(kept == kept0);
            assert(gone == gone0.push(player));
            assert forall|i: int|
                0 <= i < queue.len() && queue[i].1 + 1 <= WAIT_BEFORE_GIVE_UP implies kept.contains(
                (#[trigger] queue[i].0, (queue[i].1 + 1) as usize),
            ) by {
                assert(i != last);
                assert(front[i] == queue[i]);
                assert(kept0.contains((front[i].0, (front[i].1 + 1) as usize)));
            }
            assert forall|i: int|
                0 <= i < queue.len() && queue[i].1 + 1 > WAIT_BEFORE_GIVE_UP implies gone.contains(
                #[trigger] queue[i].0,
            ) by {
                if i == last {
                    assert(gone[gone0.len() as int] == player);
                } else {
                    assert(front[i] == queue[i]);
                    assert(gone0.contains(front[i].0));
                    let w = choose|w: int| 0 <= w < gone0.len() && gone0[w] == front[i].0;
                    assert(gone[w] == gone0[w]);
                }
            }
            assert forall|j: int| 0 <= j < kept.len() implies exists|i: int|
                0 <= i < queue.len() && #[trigger] kept[j] == (
                    queue[i].0,
                    (queue[i].1 + 1) as usize,
                ) by {
                let i = choose|i: int|
                    0 <= i < front.len() && #[trigger] kept0[j] == (
                        front[i].0,
                        (front[i].1 + 1) as usize,
                    );
                assert(front[i] == queue[i]);
            }
        }
    }
}

/// Advances every queued player's wait by one tick, takes out those who have now
/// waited longer than [`WAIT_BEFORE_GIVE_UP`] and returns them, in queue order; their
/// number is how many gave up.
pub fn tick_queue<P: Copy>(queue: &mut Vec<(P, usize)>) -> (gave_up: Vec<P>)
    requires
        forall|i: int| 0 <= i < old(queue)@.len() ==> (#[trigger] old(queue)@[i]).1 < usize::MAX,
    ensures
        final(queue)@ == queue_after_tick(old(queue)@),
        gave_up@ == giving_up_on_tick(old(queue)@),
        forall|j: int|
            0 <= j < final(queue)@.len() ==> (#[trigger] final(queue)@[j]).1
                <= WAIT_BEFORE_GIVE_UP,
        forall|i: int|
            0 <= i < old(queue)@.len() && old(queue)@[i].1 + 1 > WAIT_BEFORE_GIVE_UP
                ==> gave_up@.contains(#[trigger] old(queue)@[i].0),
        final(queue)@.len() + gave_up@.len() == old(queue)@.len(),
{
    proof {
        lemma_tick_queue_players(queue@);
    }
    let mut kept: Vec<(P, usize)> = Vec::new();
    let mut gave_up: Vec<P> = Vec::new();
    let mut i: usize = 0;
    while i < queue.len()
        invariant
            i <= queue@.len(),
            forall|j: int| 0 <= j < queue@.len() ==> (#[trigger] queue@[j]).1 < usize::MAX,
            kept@ == queue_after_tick(queue@.take(i as int)),
            gave_up@ == giving_up_on_tick(queue@.take(i as int)),
        decreases queue@.len() - i,
    {
        let (player, wait) = queue[i];
        assert(queue@.take(i + 1).drop_last() =~= queue@.take(i as int));
        let wait = wait + 1;
        if wait <= WAIT_BEFORE_GIVE_UP {
            kept.push((player, wait));
        } else {
            gave_up.push(player);
        }
        i = i + 1;
    }
    assert(queue@.take(queue@.len() as int) =~= queue@);
    *queue = kept;
    gave_up
}

} // verus!
