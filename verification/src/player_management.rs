//! Rules for players who join, give up or leave the pool.

use vstd::prelude::*;

verus! {

/// How many players the pool should hold.
pub const TARGET_PLAYER_COUNT: usize = 5000;

/// Past this many players, new players become unlikely to join.
pub const SOFT_MAX_PLAYERS: usize = TARGET_PLAYER_COUNT / 3;

/// After how many seconds in a lobby a waiting player gives up.
pub const WAIT_BEFORE_GIVE_UP: usize = 1200;

/// The positions below `n` whose wait is longer than [`WAIT_BEFORE_GIVE_UP`], in order.
pub open spec fn giving_up(wait_times: Seq<Option<usize>>, n: int) -> Seq<usize>
    decreases n,
{
    if n <= 0 {
        Seq::empty()
    } else if wait_times[n - 1]->0 > WAIT_BEFORE_GIVE_UP {
        giving_up(wait_times, n - 1).push((n - 1) as usize)
    } else {
        giving_up(wait_times, n - 1)
    }
}

/// Exactly the players who have waited too long give up, each once, in order: a
/// position is reported if and only if its wait is longer than
/// [`WAIT_BEFORE_GIVE_UP`], and the reported positions lie within the list and rise
/// strictly.
pub proof fn lemma_giving_up_exact(wait_times: Seq<Option<usize>>, n: int)
    requires
        0 <= n <= wait_times.len(),
        n <= usize::MAX + 1,
    ensures
        forall|i: int|
            0 <= i < n ==> (giving_up(wait_times, n).contains(i as usize) <==> (
            #[trigger] wait_times[i])->0 > WAIT_BEFORE_GIVE_UP),
        forall|j: int|
            0 <= j < giving_up(wait_times, n).len() ==> #[trigger] giving_up(wait_times, n)[j]
                < n,
        forall|a: int, b: int|
            0 <= a < b < giving_up(wait_times, n).len() ==> #[trigger] giving_up(wait_times, n)[a]
                < #[trigger] giving_up(wait_times, n)[b],
    decreases n,
{
    if n > 0 {
        lemma_giving_up_exact(wait_times, n - 1);
        let prev = giving_up(wait_times, n - 1);
        let r = giving_up(wait_times, n);
        if wait_times[n - 1]->0 > WAIT_BEFORE_GIVE_UP {
            assert(r == prev.push((n - 1) as usize));
            assert forall|i: int| 0 <= i < n implies (r.contains(i as usize) <==> (
            #[trigger] wait_times[i])->0 > WAIT_BEFORE_GIVE_UP) by {
                if i == n - 1 {
                    assert(r[prev.len() as int] == i as usize);
                } else {
                    if prev.contains(i as usize) {
                        let w = choose|w: int| 0 <= w < prev.len() && prev[w] == i as usize;
                        assert(r[w] == i as usize);
                    }
                    if r.contains(i as usize) {
                        let w = choose|w: int| 0 <= w < r.len() && r[w] == i as usize;
                        if w < prev.len() {
                            assert(prev[w] == i as usize);
                        }
                    }
                }
            }
            assert forall|a: int, b: int| 0 <= a < b < r.len() implies #[trigger] r[a]
                < #[trigger] r[b] by {
                assert(r[a] == prev[a]);
                if b < prev.len() {
                    assert(r[b] == prev[b]);
                }
            }
        } else {
            assert forall|i: int| 0 <= i < n implies (r.contains(i as usize) <==> (
            #[trigger] wait_times[i])->0 > WAIT_BEFORE_GIVE_UP) by {
                if i == n - 1 {
                    if r.contains(i as usize) {
                        let w = choose|w: int| 0 <= w < r.len() && r[w] == i as usize;
                        assert(prev[w] < n - 1);
                    }
                }
            }
        }
    }
}

/// Of the players waiting in a lobby, given in order by their wait times (empty slots
/// left out), the positions in that list of those who have waited too long and give
/// up. Every player in a lobby is queued, so every wait time must be present.
pub fn players_giving_up(wait_times: &Vec<Option<usize>>) -> (r: Vec<usize>)
    requires
        forall|i: int| 0 <= i < wait_times@.len() ==> #[trigger] wait_times@[i] is Some,
    ensures
        r@ == giving_up(wait_times@, wait_times@.len() as int),
        forall|i: int|
            0 <= i < wait_times@.len() ==> (r@.contains(i as usize) <==> (
            #[trigger] wait_times@[i])->0 > WAIT_BEFORE_GIVE_UP),
{
    let count = wait_times.len();
    proof {
        lemma_giving_up_exact(wait_times@, count as int);
    }
    let mut mark_sweep: Vec<usize> = Vec::new();
    let mut i: usize = 0;
    while i < wait_times.len()
        invariant
            i <= wait_times@.len(),
            forall|j: int| 0 <= j < wait_times@.len() ==> #[trigger] wait_times@[j] is Some,
            mark_sweep@ == giving_up(wait_times@, i as int),
        decreases wait_times@.len() - i,
    {
        if wait_times[i].unwrap() > WAIT_BEFORE_GIVE_UP {
            mark_sweep.push(i);
        }
        i = i + 1;
    }
    mark_sweep
}

/// How many players must leave a pool of `player_count` players to bring it back to
/// [`TARGET_PLAYER_COUNT`]; none when it is not above the target.
pub fn excess_players(player_count: usize) -> (r: usize)
    ensures
        r == if player_count <= TARGET_PLAYER_COUNT {
            0
        } else {
            player_count - TARGET_PLAYER_COUNT
        },
{
    if player_count <= TARGET_PLAYER_COUNT {
        return 0;
    }
    player_count - TARGET_PLAYER_COUNT
}

} // verus!
