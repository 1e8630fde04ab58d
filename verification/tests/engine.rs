use avalon_sim::game::{
    check_game_res, check_game_setup, check_proposal_res, count_vote_res, proposal_for_car,
    vote_for_car, PLAYER_COUNT,
};
use avalon_sim::info::{CarInfo, GameInfo};
use avalon_sim::role::{
    GoodRoleImpl, LoyalOfficial, Merlin, Morgana, Pai, Pawn, Player, RoleImpl, Vote,
};

fn good_player(id: u32) -> Player {
    Player::new(id, RoleImpl::LoyalOfficial(LoyalOfficial::default(PLAYER_COUNT)))
}

fn all_good_players() -> Vec<Player> {
    let mut players = Vec::new();
    for id in 0..PLAYER_COUNT {
        players.push(good_player(id as u32));
    }
    players
}

fn team_ids(car: &[Player]) -> Vec<u32> {
    car.iter().map(|p| p.id).collect()
}

#[test]
fn proposal_tally_needs_strict_majority() {
    assert!(check_proposal_res(&vec![true, true, false]));
    assert!(!check_proposal_res(&vec![true, false]));
    assert!(!check_proposal_res(&vec![false, false, true]));
    assert!(!check_proposal_res(&Vec::new()));
}

#[test]
fn mission_tally_counts_rejects() {
    assert_eq!(count_vote_res(&vec![Vote::Approve, Vote::Reject, Vote::Reject]), 2);
    assert_eq!(count_vote_res(&vec![Vote::Approve, Vote::Approve]), 0);
    assert_eq!(count_vote_res(&Vec::new()), 0);
}

#[test]
fn verdict_follows_lost_round_count() {
    let mut ledger = GameInfo::default();
    for (round, rc) in [0usize, 1, 1, 0, 0].iter().enumerate() {
        ledger.cars.push(CarInfo::new(round, vec![good_player(0)], 1, *rc));
    }
    // Two lost rounds of five: Good still wins.
    assert!(check_game_res(5, 5, &ledger));

    let mut lost_ledger = GameInfo::default();
    for (round, rc) in [1usize, 1, 1, 0, 0].iter().enumerate() {
        lost_ledger.cars.push(CarInfo::new(round, vec![good_player(0)], 1, *rc));
    }
    // Three lost rounds of five: Good loses.
    assert!(!check_game_res(5, 5, &lost_ledger));
}

#[test]
fn verdict_threshold_is_exhaustive() {
    // Of five rounds, zero to two lost rounds win the game for Good and
    // three to five lose it.
    for lost in 0..=5usize {
        let mut ledger = GameInfo::default();
        for round in 0..5 {
            let rc = if round < lost { 1 } else { 0 };
            ledger.cars.push(CarInfo::new(round, vec![good_player(0)], 1, rc));
        }
        assert_eq!(check_game_res(5, 5, &ledger), lost <= 2);
    }
}

#[test]
fn proposal_builds_consecutive_team_clockwise() {
    let players = all_good_players();
    let car = proposal_for_car(1, 3, &players);
    // All tables are zero, so everyone approves the first candidate.
    assert_eq!(team_ids(&car), vec![1, 2, 3]);
}

#[test]
fn proposal_wraps_around_the_table() {
    let players = all_good_players();
    let car = proposal_for_car(6, 4, &players);
    assert_eq!(team_ids(&car), vec![6, 7, 0, 1]);
}

#[test]
fn rejected_proposal_brings_in_next_clockwise_candidate() {
    // Every player scores seat 2 below the top three, so the initial team
    // {0, 1, 2} is rejected; the rebuild must continue the wrap sequence
    // with seat 3, the next clockwise candidate after the tail.
    let mut players = Vec::new();
    for id in 0..PLAYER_COUNT {
        players.push(Player::new(
            id as u32,
            RoleImpl::LoyalOfficial(LoyalOfficial {
                proxy: GoodRoleImpl::new(vec![10, 10, -5, 10, 0, 0, 0, 0]),
            }),
        ));
    }
    let car = proposal_for_car(0, 3, &players);
    assert_eq!(team_ids(&car), vec![0, 1, 3]);
}

#[test]
fn mission_vote_writes_entry_and_updates_tables() {
    let mut players = all_good_players();
    let mut ledger = GameInfo::default();
    let car = vec![players[2].clone(), players[5].clone()];
    vote_for_car(0, car, &mut players, &mut ledger);
    assert_eq!(ledger.cars.len(), 1);
    assert_eq!(ledger.cars[0].round, 0);
    assert_eq!(ledger.cars[0].reject_count, 0);
    assert_eq!(team_ids(&ledger.cars[0].car), vec![2, 5]);
    // Every Good table saw the successful round.
    for p in &players {
        match &p.role {
            RoleImpl::LoyalOfficial(x) => {
                assert_eq!(x.proxy.score, vec![0, 0, 10, 0, 0, 10, 0, 0]);
            }
            _ => unreachable!(),
        }
    }
}

#[test]
fn mission_vote_counts_bad_rejects_after_round_zero() {
    let mut players = all_good_players();
    players[4] = Player::new(4, RoleImpl::Pawn(Pawn::default()));
    let mut ledger = GameInfo::default();
    let first_car = vec![players[4].clone(), players[1].clone()];
    vote_for_car(0, first_car, &mut players, &mut ledger);
    // Round 0: even the pawn approves.
    assert_eq!(ledger.cars[0].reject_count, 0);
    let second_car = vec![players[4].clone(), players[1].clone()];
    vote_for_car(1, second_car, &mut players, &mut ledger);
    // Round 1: the pawn rejects.
    assert_eq!(ledger.cars[1].reject_count, 1);
}

#[test]
fn setup_check_accepts_fresh_seating() {
    let players = all_good_players();
    assert!(check_game_setup(&players));
}

#[test]
fn setup_check_rejects_wrong_count_or_ids() {
    let mut short = all_good_players();
    short.pop();
    assert!(!check_game_setup(&short));

    let mut swapped = all_good_players();
    swapped[0] = good_player(1);
    assert!(!check_game_setup(&swapped));
}

#[test]
fn setup_check_rejects_nonzero_tables() {
    let mut players = all_good_players();
    players[3] = Player::new(
        3,
        RoleImpl::LoyalOfficial(LoyalOfficial { proxy: GoodRoleImpl::new(vec![1, 0, 0, 0, 0, 0, 0, 0]) }),
    );
    assert!(!check_game_setup(&players));
}

#[test]
fn setup_check_accepts_mixed_roster() {
    let mut players = Vec::new();
    players.push(Player::new(0, RoleImpl::LoyalOfficial(LoyalOfficial::default(8))));
    players.push(Player::new(1, RoleImpl::LoyalOfficial(LoyalOfficial::default(8))));
    players.push(Player::new(2, RoleImpl::Pai(Pai::default(8))));
    players.push(Player::new(3, RoleImpl::Morgana(Morgana::default())));
    players.push(Player::new(4, RoleImpl::Merlin(Merlin::default(8))));
    players.push(Player::new(5, RoleImpl::Pawn(Pawn::default())));
    players.push(Player::new(6, RoleImpl::LoyalOfficial(LoyalOfficial::default(8))));
    players.push(Player::new(7, RoleImpl::Pawn(Pawn::default())));
    assert!(check_game_setup(&players));
}
