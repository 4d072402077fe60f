//! Lobbies: players gather in the slots of a lobby until it is full, are then split
//! into teams, and when the match ends one team is the winner.
//!
//! The functions here work on any player type; they move players between slots
//! and teams and never look inside them.

use vstd::prelude::*;

use crate::{MATCH_PLAYER_COUNT, TEAM_COUNT, TEAM_SIZE};

verus! {

/// Why a lobby could not start.
#[derive(Debug, Clone, Copy, PartialEq, Eq, Structural)]
pub enum LobbyError {
    /// Not enough players to start lobby
    NotEnoughPlayers,
}

/// The number (index) of a team within a match.
#[derive(Debug, Default, PartialEq, Eq, PartialOrd, Ord, Clone, Copy)]
pub struct TeamNumber(usize);

impl View for TeamNumber {
    type V = usize;

    closed spec fn view(&self) -> usize {
        self.0
    }
}

impl TeamNumber {
    /// Creates a new instance without verifying that it is valid for any particular match.
    /// The caller guarantees that the number is valid for the lobby.
    pub fn new_unchecked(n: usize) -> (r: Self)
        ensures
            r@ == n,
    {
        Self(n)
    }

    /// Creates a new instance with a bounds check; the number must name one of the
    /// `TEAM_COUNT` teams.
    pub fn new(n: usize) -> (r: Self)
        requires
            n < TEAM_COUNT,
        ensures
            r@ == n,
    {
        Self(n)
    }

    /// The team's index.
    pub fn get(&self) -> (r: usize)
        ensures
            r == self@,
    {
        self.0
    }
}

/// The team that the `k`-th player of a lobby joins.
pub open spec fn team_of(k: int) -> int {
    k % (TEAM_COUNT as int)
}

/// The slot within its team that the `k`-th player of a lobby takes.
pub open spec fn slot_of(k: int) -> int {
    k % (TEAM_SIZE as int)
}

/// The position in the lobby of the player that sits in slot `s` of team `t`: the
/// one position below `MATCH_PLAYER_COUNT` that leaves remainder `t` modulo the team
/// count and remainder `s` modulo the team size.
pub open spec fn join_position(t: int, s: int) -> int {
    (5 * t + 6 * s) % 10
}

/// Every slot of every team is taken by exactly one of the lobby's players: the
/// player at [`join_position`] takes it, and no two players take the same slot.
pub proof fn lemma_team_assignment_bijective()
    ensures
        forall|t: int, s: int|
            0 <= t < TEAM_COUNT && 0 <= s < TEAM_SIZE ==> {
                let k = #[trigger] join_position(t, s);
                &&& 0 <= k < MATCH_PLAYER_COUNT
                &&& team_of(k) == t
                &&& slot_of(k) == s
            },
        forall|k1: int, k2: int|
            0 <= k1 < MATCH_PLAYER_COUNT && 0 <= k2 < MATCH_PLAYER_COUNT && #[trigger] team_of(k1)
                == #[trigger] team_of(k2) && slot_of(k1) == slot_of(k2) ==> k1 == k2,
{
}

/// Splits the players of a full lobby into teams: the `k`-th player joins team
/// `k % TEAM_COUNT` in slot `k % TEAM_SIZE`.
pub fn assign_teams<P: Copy>(players: [P; MATCH_PLAYER_COUNT]) -> (teams: [[P; TEAM_SIZE]; TEAM_COUNT])
    ensures
        forall|k: int|
            0 <= k < MATCH_PLAYER_COUNT ==> #[trigger] teams@[team_of(k)]@[slot_of(k)] == players@[k],
        forall|t: int, s: int|
            0 <= t < TEAM_COUNT && 0 <= s < TEAM_SIZE ==> #[trigger] teams@[t]@[s]
                == players@[join_position(t, s)],
{
    proof {
        lemma_team_assignment_bijective();
    }
    let mut teams: [[P; TEAM_SIZE]; TEAM_COUNT] = [[players[0]; TEAM_SIZE]; TEAM_COUNT];
    let mut k: usize = 0;
    while k < MATCH_PLAYER_COUNT
        invariant
            k <= MATCH_PLAYER_COUNT,
            forall|j: int| 0 <= j < k ==> #[trigger] teams@[team_of(j)]@[slot_of(j)] == players@[j],
        decreases MATCH_PLAYER_COUNT - k,
    {
        let slot = k % TEAM_SIZE;
        let team = k % TEAM_COUNT;
        teams[team][slot] = players[k];
        k = k + 1;
    }
    teams
}


/// The number of taken slots among `slots`.
pub open spec fn occupied(slots: Seq<Option<usize>>) -> nat
    decreases slots.len(),
{
    if slots.len() == 0 {
        0
    } else {
        occupied(slots.drop_last()) + if slots.last() is Some {
            1nat
        } else {
            0nat
        }
    }
}

/// Which slots of a lobby are taken.
pub open spec fn taken<P>(slots: Seq<Option<P>>) -> Seq<Option<usize>> {
    slots.map_values(|p: Option<P>| if p is Some { Some(0usize) } else { None })
}

/// A lobby's slots are all taken exactly when as many are taken as there are slots.
pub proof fn lemma_occupied_full(slots: Seq<Option<usize>>)
    ensures
        occupied(slots) <= slots.len(),
        occupied(slots) == slots.len() <==> forall|i: int|
            0 <= i < slots.len() ==> #[trigger] slots[i] is Some,
    decreases slots.len(),
{
    if slots.len() > 0 {
        lemma_occupied_full(slots.drop_last());
        if occupied(slots) == slots.len() {
            assert forall|i: int| 0 <= i < slots.len() implies #[trigger] slots[i] is Some by {
                if i < slots.len() - 1 {
                    assert(slots.drop_last()[i] == slots[i]);
                }
            }
        }
        if forall|i: int| 0 <= i < slots.len() ==> #[trigger] slots[i] is Some {
            assert forall|i: int| 0 <= i < slots.drop_last().len() implies #[trigger] slots.drop_last()[i] is Some by {
                assert(slots.drop_last()[i] == slots[i]);
            }
        }
    }
}

/// Taking a free slot raises the number of taken slots by one.
pub proof fn lemma_take_free_slot(slots: Seq<Option<usize>>, i: int)
    requires
        0 <= i < slots.len(),
        slots[i] is None,
    ensures
        occupied(slots.update(i, Some(0usize))) == occupied(slots) + 1,
    decreases slots.len(),
{
    let u = slots.update(i, Some(0usize));
    if i == slots.len() - 1 {
        assert(u.drop_last() =~= slots.drop_last());
    } else {
        lemma_take_free_slot(slots.drop_last(), i);
        assert(u.drop_last() =~= slots.drop_last().update(i, Some(0usize)));
    }
}

/// The number of taken slots.
pub fn occupied_count<P: Copy>(slots: &[Option<P>; MATCH_PLAYER_COUNT]) -> (r: usize)
    ensures
        r == occupied(taken(slots@)),
        r <= MATCH_PLAYER_COUNT,
{
    let mut count: usize = 0;
    let mut i: usize = 0;
    while i < MATCH_PLAYER_COUNT
        invariant
            i <= MATCH_PLAYER_COUNT,
            count == occupied(taken(slots@).take(i as int)),
            count <= i,
        decreases MATCH_PLAYER_COUNT - i,
    {
        assert(taken(slots@).take(i + 1).drop_last() =~= taken(slots@).take(i as int));
        if slots[i].is_some() {
            count = count + 1;
        }
        i = i + 1;
    }
    assert(taken(slots@).take(MATCH_PLAYER_COUNT as int) =~= taken(slots@));
    count
}

/// The first free slot among `slots`, if any.
pub open spec fn first_free<P>(slots: Seq<Option<P>>) -> int {
    choose|i: int|
        0 <= i < slots.len() && slots[i] is None && forall|j: int| 0 <= j < i ==> #[trigger] slots[j] is Some
}

/// Puts `player` into the first free slot of a lobby; there must be one.
pub fn add_player<P: Copy>(slots: &mut [Option<P>; MATCH_PLAYER_COUNT], player: P)
    requires
        exists|i: int| 0 <= i < MATCH_PLAYER_COUNT && #[trigger] old(slots)@[i] is None,
    ensures
        0 <= first_free(old(slots)@) < MATCH_PLAYER_COUNT,
        old(slots)@[first_free(old(slots)@)] is None,
        forall|j: int| 0 <= j < first_free(old(slots)@) ==> #[trigger] old(slots)@[j] is Some,
        final(slots)@ == old(slots)@.update(first_free(old(slots)@), Some(player)),
        occupied(taken(final(slots)@)) == occupied(taken(old(slots)@)) + 1,
{
    let mut index: usize = 0;
    while index < MATCH_PLAYER_COUNT && slots[index].is_some()
        invariant
            index <= MATCH_PLAYER_COUNT,
            slots@ == old(slots)@,
            forall|j: int| 0 <= j < index ==> #[trigger] slots@[j] is Some,
            exists|i: int| 0 <= i < MATCH_PLAYER_COUNT && #[trigger] slots@[i] is None,
        decreases MATCH_PLAYER_COUNT - index,
    {
        index = index + 1;
    }
    proof {
        if index == MATCH_PLAYER_COUNT {
            let i = choose|i: int| 0 <= i < MATCH_PLAYER_COUNT && #[trigger] slots@[i] is None;
            assert(slots@[i] is Some);
        }
        assert(0 <= index < MATCH_PLAYER_COUNT && slots@[index as int] is None
            && forall|j: int| 0 <= j < index ==> #[trigger] slots@[j] is Some);
        let f = first_free(slots@);
        if f < index {
            assert(slots@[f] is Some);
        } else if f > index {
            assert(slots@[index as int] is Some);
        }
    }
    slots[index] = Some(player);
    proof {
        lemma_take_free_slot(taken(old(slots)@), index as int);
        assert(taken(slots@) =~= taken(old(slots)@).update(index as int, Some(0usize)));
    }
}

/// Attempts to split the players of a lobby into teams, as [`assign_teams`] does;
/// fails unless every slot is taken.
pub fn start_teams<P: Copy>(slots: &[Option<P>; MATCH_PLAYER_COUNT]) -> (r: Result<
    [[P; TEAM_SIZE]; TEAM_COUNT],
    LobbyError,
>)
    ensures
        r is Ok <==> forall|i: int| 0 <= i < MATCH_PLAYER_COUNT ==> #[trigger] slots@[i] is Some,
        r is Err ==> r == Err::<[[P; TEAM_SIZE]; TEAM_COUNT], LobbyError>(
            LobbyError::NotEnoughPlayers,
        ),
        r matches Ok(teams) ==> forall|k: int|
            0 <= k < MATCH_PLAYER_COUNT ==> #[trigger] teams@[team_of(k)]@[slot_of(k)] == slots@[k]->0,
{
    let player_count = occupied_count(slots);
    proof {
        lemma_occupied_full(taken(slots@));
        assert forall|i: int| 0 <= i < MATCH_PLAYER_COUNT implies (#[trigger] slots@[i] is Some
            <==> taken(slots@)[i] is Some) by {}
    }
    if player_count != MATCH_PLAYER_COUNT {
        return Err(LobbyError::NotEnoughPlayers);
    }
    let mut teams: [[Option<P>; TEAM_SIZE]; TEAM_COUNT] = [[None; TEAM_SIZE]; TEAM_COUNT];
    let mut i: usize = 0;
    while i < player_count
        invariant
            i <= player_count,
            player_count == MATCH_PLAYER_COUNT,
            forall|j: int| 0 <= j < i ==> #[trigger] teams@[team_of(j)]@[slot_of(j)] == slots@[j],
        decreases player_count - i,
    {
        let slot = i % TEAM_SIZE;
        let team = i % TEAM_COUNT;
        teams[team][slot] = slots[i];
        i = i + 1;
    }
    proof {
        lemma_team_assignment_bijective();
    }
    let first = slots[0].unwrap();
    let mut out: [[P; TEAM_SIZE]; TEAM_COUNT] = [[first; TEAM_SIZE]; TEAM_COUNT];
    let mut t: usize = 0;
    while t < TEAM_COUNT
        invariant
            t <= TEAM_COUNT,
            forall|j: int| 0 <= j < MATCH_PLAYER_COUNT ==> #[trigger] slots@[j] is Some,
            forall|j: int|
                0 <= j < MATCH_PLAYER_COUNT ==> #[trigger] teams@[team_of(j)]@[slot_of(j)] == slots@[j],
            forall|a: int, b: int|
                0 <= a < t && 0 <= b < TEAM_SIZE ==> #[trigger] out@[a]@[b] == teams@[a]@[b]->0,
        decreases TEAM_COUNT - t,
    {
        let mut sl: usize = 0;
        while sl < TEAM_SIZE
            invariant
                t < TEAM_COUNT,
                sl <= TEAM_SIZE,
                forall|j: int| 0 <= j < MATCH_PLAYER_COUNT ==> #[trigger] slots@[j] is Some,
                forall|j: int|
                    0 <= j < MATCH_PLAYER_COUNT ==> #[trigger] teams@[team_of(j)]@[slot_of(j)]
                        == slots@[j],
                forall|a: int, b: int|
                    0 <= a < t && 0 <= b < TEAM_SIZE ==> #[trigger] out@[a]@[b] == teams@[a]@[b]->0,
                forall|b: int| 0 <= b < sl ==> #[trigger] out@[t as int]@[b] == teams@[t as int]@[b]->0,
            decreases TEAM_SIZE - sl,
        {
            proof {
                lemma_team_assignment_bijective();
                let k = join_position(t as int, sl as int);
                assert(team_of(k) == t && slot_of(k) == sl);
                assert(teams@[team_of(k)]@[slot_of(k)] == slots@[k]);
            }
            out[t][sl] = teams[t][sl].unwrap();
            sl = sl + 1;
        }
        t = t + 1;
    }
    Ok(out)
}

/// The players of a match in the order they joined: the `i`-th player is the one
/// in slot `i % TEAM_SIZE` of team `i % TEAM_COUNT`.
pub fn players_in_join_order<P: Copy>(teams: &[[P; TEAM_SIZE]; TEAM_COUNT]) -> (r: [P; MATCH_PLAYER_COUNT])
    ensures
        forall|i: int| 0 <= i < MATCH_PLAYER_COUNT ==> #[trigger] r@[i] == teams@[team_of(i)]@[slot_of(i)],
{
    let mut r: [P; MATCH_PLAYER_COUNT] = [teams[0][0]; MATCH_PLAYER_COUNT];
    let mut i: usize = 0;
    while i < MATCH_PLAYER_COUNT
        invariant
            i <= MATCH_PLAYER_COUNT,
            forall|j: int| 0 <= j < i ==> #[trigger] r@[j] == teams@[team_of(j)]@[slot_of(j)],
        decreases MATCH_PLAYER_COUNT - i,
    {
        let slot = i % TEAM_SIZE;
        let team = i % TEAM_COUNT;
        r[i] = teams[team][slot];
        i = i + 1;
    }
    r
}

/// Splitting the players of a lobby into teams and reading them back in join order
/// gives the players in the order they had.
pub proof fn lemma_join_order_round_trip<P>(
    players: Seq<P>,
    teams: Seq<Seq<P>>,
    back: Seq<P>,
)
    requires
        players.len() == MATCH_PLAYER_COUNT,
        back.len() == MATCH_PLAYER_COUNT,
        forall|k: int|
            0 <= k < MATCH_PLAYER_COUNT ==> #[trigger] teams[team_of(k)][slot_of(k)] == players[k],
        forall|i: int| 0 <= i < MATCH_PLAYER_COUNT ==> #[trigger] back[i] == teams[team_of(i)][slot_of(i)],
    ensures
        back == players,
{
    assert(back =~= players);
}

/// The players of a match team by team: the player in slot `s` of team `t` comes at
/// position `t * TEAM_SIZE + s`.
pub fn flatten_teams<P: Copy>(teams: &[[P; TEAM_SIZE]; TEAM_COUNT]) -> (r: [P; MATCH_PLAYER_COUNT])
    ensures
        forall|t: int, s: int|
            0 <= t < TEAM_COUNT && 0 <= s < TEAM_SIZE ==> r@[t * TEAM_SIZE + s] == #[trigger] teams@[t]@[s],
{
    let mut r: [P; MATCH_PLAYER_COUNT] = [teams[0][0]; MATCH_PLAYER_COUNT];
    let mut t: usize = 0;
    while t < TEAM_COUNT
        invariant
            t <= TEAM_COUNT,
            forall|a: int, b: int|
                0 <= a < t && 0 <= b < TEAM_SIZE ==> r@[a * TEAM_SIZE + b] == #[trigger] teams@[a]@[b],
        decreases TEAM_COUNT - t,
    {
        let mut s: usize = 0;
        while s < TEAM_SIZE
            invariant
                t < TEAM_COUNT,
                s <= TEAM_SIZE,
                forall|a: int, b: int|
                    0 <= a < t && 0 <= b < TEAM_SIZE ==> r@[a * TEAM_SIZE + b] == #[trigger] teams@[a]@[b],
                forall|b: int| 0 <= b < s ==> r@[t * TEAM_SIZE + b] == #[trigger] teams@[t as int]@[b],
            decreases TEAM_SIZE - s,
        {
            r[t * TEAM_SIZE + s] = teams[t][s];
            s = s + 1;
        }
        t = t + 1;
    }
    r
}


/// The players of every team but `team`, team by team.
pub open spec fn others<P>(teams: Seq<Seq<P>>, team: int, t: int) -> Seq<P>
    decreases t,
{
    if t <= 0 {
        Seq::empty()
    } else if t - 1 == team {
        others(teams, team, t - 1)
    } else {
        others(teams, team, t - 1) + teams[t - 1]
    }
}

/// The view of each team of a match.
pub open spec fn team_views<P>(teams: [[P; TEAM_SIZE]; TEAM_COUNT]) -> Seq<Seq<P>> {
    teams@.map_values(|t: [P; TEAM_SIZE]| t@)
}

/// The enemies of team `team`: the players of the other teams, team by team.
pub fn enemies_of<P: Copy>(teams: &[[P; TEAM_SIZE]; TEAM_COUNT], team: usize) -> (r: Vec<P>)
    requires
        team < TEAM_COUNT,
    ensures
        r@ == others(team_views(*teams), team as int, TEAM_COUNT as int),
{
    let mut r: Vec<P> = Vec::new();
    let mut t: usize = 0;
    while t < TEAM_COUNT
        invariant
            t <= TEAM_COUNT,
            r@ == others(team_views(*teams), team as int, t as int),
        decreases TEAM_COUNT - t,
    {
        let ghost before = r@;
        if t != team {
            let mut s: usize = 0;
            while s < TEAM_SIZE
                invariant
                    t < TEAM_COUNT,
                    s <= TEAM_SIZE,
                    r@ == before + teams@[t as int]@.take(s as int),
                decreases TEAM_SIZE - s,
            {
                r.push(teams[t][s]);
                assert(teams@[t as int]@.take(s + 1) =~= teams@[t as int]@.take(s as int).push(
                    teams@[t as int]@[s as int],
                ));
                s = s + 1;
            }
            assert(teams@[t as int]@.take(TEAM_SIZE as int) =~= team_views(*teams)[t as int]);
        }
        t = t + 1;
    }
    r
}

/// The players at the join positions below `n` that are not on team `team`, in join
/// order.
pub open spec fn others_in_join_order<P>(teams: Seq<Seq<P>>, team: int, n: int) -> Seq<P>
    decreases n,
{
    if n <= 0 {
        Seq::empty()
    } else if team_of(n - 1) == team {
        others_in_join_order(teams, team, n - 1)
    } else {
        others_in_join_order(teams, team, n - 1).push(teams[team_of(n - 1)][slot_of(n - 1)])
    }
}

/// The enemies of team `team` in the order the players joined the lobby.
pub fn enemies_in_join_order<P: Copy>(teams: &[[P; TEAM_SIZE]; TEAM_COUNT], team: usize) -> (r: Vec<
    P,
>)
    requires
        team < TEAM_COUNT,
    ensures
        r@ == others_in_join_order(team_views(*teams), team as int, MATCH_PLAYER_COUNT as int),
{
    let players = players_in_join_order(teams);
    let mut r: Vec<P> = Vec::new();
    let mut i: usize = 0;
    while i < MATCH_PLAYER_COUNT
        invariant
            i <= MATCH_PLAYER_COUNT,
            team < TEAM_COUNT,
            forall|j: int|
                0 <= j < MATCH_PLAYER_COUNT ==> #[trigger] players@[j] == teams@[team_of(j)]@[slot_of(
                    j,
                )],
            r@ == others_in_join_order(team_views(*teams), team as int, i as int),
        decreases MATCH_PLAYER_COUNT - i,
    {
        if i % TEAM_COUNT != team {
            r.push(players[i]);
        }
        i = i + 1;
    }
    r
}

/// The winner of a match: the team with the highest score, the last such team when
/// several share it.
pub fn winning_team(scores: [usize; TEAM_COUNT]) -> (r: TeamNumber)
    ensures
        r@ < TEAM_COUNT,
        forall|t: int| 0 <= t < TEAM_COUNT ==> #[trigger] scores@[t] <= scores@[r@ as int],
        forall|t: int| r@ < t < TEAM_COUNT ==> #[trigger] scores@[t] < scores@[r@ as int],
{
    let mut best: usize = 0;
    let mut i: usize = 1;
    while i < TEAM_COUNT
        invariant
            1 <= i <= TEAM_COUNT,
            best < i,
            forall|t: int| 0 <= t < i ==> #[trigger] scores@[t] <= scores@[best as int],
            forall|t: int| best < t < i ==> #[trigger] scores@[t] < scores@[best as int],
        decreases TEAM_COUNT - i,
    {
        if scores[i] >= scores[best] {
            best = i;
        }
        i = i + 1;
    }
    TeamNumber::new(best)
}

/// The length in minutes of a match between teams with the given total skill: from
/// ten up to an hour, by the spread between the strongest and the weakest team's
/// total relative to the strongest.
pub open spec fn match_minutes(low: int, high: int) -> int {
    let spread = (high - low) / high;
    let t = if spread > 1 {
        spread
    } else {
        1
    };
    10 + (1int / t) * (60 - 10)
}

/// The length in minutes of a match, from the teams' total skill; the strongest team's
/// total must be positive. The spread relative to the strongest team is never above one,
/// so every match lasts the full hour.
pub fn match_duration(team_totals: [usize; TEAM_COUNT]) -> (r: usize)
    requires
        exists|t: int| 0 <= t < TEAM_COUNT && #[trigger] team_totals@[t] > 0,
    ensures
        exists|lo: int, hi: int|
            0 <= lo < TEAM_COUNT && 0 <= hi < TEAM_COUNT && r == match_minutes(
                team_totals@[lo] as int,
                team_totals@[hi] as int,
            ) && (forall|t: int|
                0 <= t < TEAM_COUNT ==> team_totals@[lo] <= #[trigger] team_totals@[t]
                    <= team_totals@[hi]),
        r == 60,
{
    let start: usize = 10;
    let end: usize = 60;
    let mut min_total = team_totals[0];
    let mut max_total = team_totals[0];
    let mut lo: usize = 0;
    let mut hi: usize = 0;
    let mut i: usize = 1;
    while i < TEAM_COUNT
        invariant
            1 <= i <= TEAM_COUNT,
            lo < i && hi < i,
            min_total == team_totals@[lo as int],
            max_total == team_totals@[hi as int],
            forall|t: int|
                0 <= t < i ==> min_total <= #[trigger] team_totals@[t] <= max_total,
        decreases TEAM_COUNT - i,
    {
        if team_totals[i] < min_total {
            min_total = team_totals[i];
            lo = i;
        }
        if team_totals[i] > max_total {
            max_total = team_totals[i];
            hi = i;
        }
        i = i + 1;
    }
    let spread = (max_total - min_total) / max_total;
    let t = if spread > 1 {
        spread
    } else {
        1
    };
    assert(spread <= 1) by (nonlinear_arith)
        requires
            spread as int == (max_total - min_total) as int / (max_total as int),
            max_total > 0,
            min_total >= 0,
            min_total <= max_total,
    ;
    let r = start + (1 / t) * (end - start);
    assert(r == match_minutes(team_totals@[lo as int] as int, team_totals@[hi as int] as int));
    assert(0 <= lo < TEAM_COUNT && 0 <= hi < TEAM_COUNT && r == match_minutes(
        team_totals@[lo as int] as int,
        team_totals@[hi as int] as int,
    ) && (forall|t: int|
        0 <= t < TEAM_COUNT ==> team_totals@[lo as int] <= #[trigger] team_totals@[t]
            <= team_totals@[hi as int]));
    r
}


/// Whether the players of lobby `from` fit into lobby `into`: the slots of the two
/// lobbies together must not exceed the slots of one. Every lobby has
/// `MATCH_PLAYER_COUNT` slots, taken or not, so two lobbies never fit together.
pub fn room_for_merge<P>(
    into: &[Option<P>; MATCH_PLAYER_COUNT],
    from: &[Option<P>; MATCH_PLAYER_COUNT],
) -> (r: bool)
    ensures
        r == (into@.len() + from@.len() <= MATCH_PLAYER_COUNT),
        !r,
{
    let self_count = into.len();
    let other_count = from.len();
    !(self_count + other_count > MATCH_PLAYER_COUNT)
}

} // verus!
