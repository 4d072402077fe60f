use mm_sim::lobby::{
    add_player, assign_teams, enemies_in_join_order, enemies_of, flatten_teams, match_duration,
    occupied_count, players_in_join_order, room_for_merge, start_teams, winning_team, LobbyError,
    TeamNumber,
};

fn ten() -> [u32; 10] {
    [0, 1, 2, 3, 4, 5, 6, 7, 8, 9]
}

#[test]
fn players_alternate_between_teams() {
    let teams = assign_teams(ten());
    assert_eq!(teams, [[0, 6, 2, 8, 4], [5, 1, 7, 3, 9]]);
}

#[test]
fn join_order_gives_players_back() {
    let teams = assign_teams(ten());
    assert_eq!(players_in_join_order(&teams), ten());
}

#[test]
fn flatten_lists_team_by_team() {
    let teams = assign_teams(ten());
    assert_eq!(flatten_teams(&teams), [0, 6, 2, 8, 4, 5, 1, 7, 3, 9]);
}

#[test]
fn start_teams_needs_a_full_lobby() {
    let mut slots: [Option<u32>; 10] = [None; 10];
    assert_eq!(start_teams(&slots), Err(LobbyError::NotEnoughPlayers));
    for i in 0..9 {
        add_player(&mut slots, i);
    }
    assert_eq!(occupied_count(&slots), 9);
    assert_eq!(start_teams(&slots), Err(LobbyError::NotEnoughPlayers));
    add_player(&mut slots, 9);
    assert_eq!(occupied_count(&slots), 10);
    assert_eq!(start_teams(&slots), Ok([[0, 6, 2, 8, 4], [5, 1, 7, 3, 9]]));
}

#[test]
fn add_player_takes_first_free_slot() {
    let mut slots: [Option<u32>; 10] = [Some(1), None, Some(3), None, None, None, None, None, None, None];
    add_player(&mut slots, 7);
    assert_eq!(slots[1], Some(7));
    add_player(&mut slots, 8);
    assert_eq!(slots[3], Some(8));
    assert_eq!(occupied_count(&slots), 4);
}

#[test]
fn enemies_are_the_other_team() {
    let teams = assign_teams(ten());
    assert_eq!(enemies_of(&teams, 0), vec![5, 1, 7, 3, 9]);
    assert_eq!(enemies_of(&teams, 1), vec![0, 6, 2, 8, 4]);
    assert_eq!(enemies_in_join_order(&teams, 0), vec![1, 3, 5, 7, 9]);
    assert_eq!(enemies_in_join_order(&teams, 1), vec![0, 2, 4, 6, 8]);
}

#[test]
fn highest_score_wins_and_ties_go_to_the_last_team() {
    assert_eq!(winning_team([10, 20]).get(), 1);
    assert_eq!(winning_team([30, 20]).get(), 0);
    assert_eq!(winning_team([20, 20]).get(), 1);
}

#[test]
fn every_match_lasts_an_hour() {
    assert_eq!(match_duration([5000, 12000]), 60);
    assert_eq!(match_duration([1, 1]), 60);
    assert_eq!(match_duration([0, 7]), 60);
}

#[test]
fn team_numbers() {
    assert_eq!(TeamNumber::new(1).get(), 1);
    assert_eq!(TeamNumber::new_unchecked(5).get(), 5);
    assert_eq!(TeamNumber::default().get(), 0);
}

#[test]
fn two_lobbies_never_fit_together() {
    let empty: [Option<u32>; 10] = [None; 10];
    let mut one = empty;
    add_player(&mut one, 3);
    assert!(!room_for_merge(&empty, &empty));
    assert!(!room_for_merge(&one, &empty));
}
