use avalon_sim::game::{
    check_game_res, check_game_setup, init_players, run_rounds, start_game, start_vote, car_round,
    PLAYER_COUNT, ROUND_COUNT,
};
use avalon_sim::role::{
    Assassin, LoyalOfficial, Merlin, Morgana, Pai, Pawn, Player, RoleImpl,
};

fn all_good_players() -> Vec<Player> {
    let mut players = Vec::new();
    for id in 0..PLAYER_COUNT {
        players.push(Player::new(
            id as u32,
            RoleImpl::LoyalOfficial(LoyalOfficial::default(PLAYER_COUNT)),
        ));
    }
    players
}

/// Five good seats and the three Bad-family roles on seats 3, 5 and 7,
/// which puts a Bad member on every team of rounds 1 through 4.
fn infiltrated_players() -> Vec<Player> {
    let mut players = Vec::new();
    players.push(Player::new(0, RoleImpl::LoyalOfficial(LoyalOfficial::default(PLAYER_COUNT))));
    players.push(Player::new(1, RoleImpl::LoyalOfficial(LoyalOfficial::default(PLAYER_COUNT))));
    players.push(Player::new(2, RoleImpl::Pai(Pai::default(PLAYER_COUNT))));
    players.push(Player::new(3, RoleImpl::Morgana(Morgana::default())));
    players.push(Player::new(4, RoleImpl::Merlin(Merlin::default(PLAYER_COUNT))));
    players.push(Player::new(5, RoleImpl::Pawn(Pawn::default())));
    players.push(Player::new(6, RoleImpl::LoyalOfficial(LoyalOfficial::default(PLAYER_COUNT))));
    players.push(Player::new(7, RoleImpl::Assassin(Assassin::default())));
    players
}

#[test]
fn all_good_game_loses_no_round() {
    let mut players = all_good_players();
    let ledger = run_rounds(&mut players, 2);
    let sizes = car_round();
    assert_eq!(ledger.cars.len(), ROUND_COUNT);
    for r in 0..ROUND_COUNT {
        assert_eq!(ledger.cars[r].reject_count, 0);
        assert_eq!(ledger.cars[r].car.len(), sizes[r]);
    }
    assert!(check_game_res(ROUND_COUNT, ROUND_COUNT, &ledger));
}

#[test]
fn all_good_game_wins_for_any_leader() {
    let players = all_good_players();
    assert!(start_vote(players));
}

#[test]
fn infiltrated_teams_lose_four_rounds() {
    let mut players = infiltrated_players();
    let ledger = run_rounds(&mut players, 0);
    assert_eq!(ledger.cars.len(), ROUND_COUNT);
    // Round 0: even the Bad family approves the first mission.
    assert_eq!(ledger.cars[0].reject_count, 0);
    // Rounds 1 through 4 each carry a rejecting Bad member.
    let mut lost = 0;
    for r in 1..ROUND_COUNT {
        assert!(ledger.cars[r].reject_count >= 1);
        lost += 1;
    }
    assert_eq!(lost, 4);
    assert!(!check_game_res(ROUND_COUNT, ROUND_COUNT, &ledger));
}

#[test]
fn ledger_teams_have_no_duplicate_members() {
    let mut players = infiltrated_players();
    let ledger = run_rounds(&mut players, 5);
    for entry in &ledger.cars {
        for a in 0..entry.car.len() {
            for b in (a + 1)..entry.car.len() {
                assert_ne!(entry.car[a].id, entry.car[b].id);
            }
        }
        assert_eq!(entry.car.len(), entry.car_size);
    }
}

#[test]
fn games_are_deterministic_given_seating_and_leader() {
    let mut first = infiltrated_players();
    let mut second = infiltrated_players();
    let ledger_a = run_rounds(&mut first, 3);
    let ledger_b = run_rounds(&mut second, 3);
    assert_eq!(ledger_a.cars.len(), ledger_b.cars.len());
    for r in 0..ledger_a.cars.len() {
        assert_eq!(ledger_a.cars[r].reject_count, ledger_b.cars[r].reject_count);
        let ids_a: Vec<u32> = ledger_a.cars[r].car.iter().map(|p| p.id).collect();
        let ids_b: Vec<u32> = ledger_b.cars[r].car.iter().map(|p| p.id).collect();
        assert_eq!(ids_a, ids_b);
    }
}

#[test]
fn good_tables_stay_synchronized_over_a_game() {
    let mut players = infiltrated_players();
    let _ = run_rounds(&mut players, 1);
    let mut tables: Vec<Vec<i32>> = Vec::new();
    for p in &players {
        match &p.role {
            RoleImpl::LoyalOfficial(x) => tables.push(x.proxy.score.clone()),
            RoleImpl::Pai(x) => tables.push(x.proxy.score.clone()),
            RoleImpl::Merlin(x) => tables.push(x.proxy.score.clone()),
            _ => {}
        }
    }
    assert_eq!(tables.len(), 5);
    for t in &tables {
        assert_eq!(t, &tables[0]);
    }
}

#[test]
fn init_players_seats_the_standard_roster() {
    let players = init_players();
    assert_eq!(players.len(), PLAYER_COUNT);
    let mut loyal = 0;
    let mut pai = 0;
    let mut merlin = 0;
    let mut morgana = 0;
    let mut pawn = 0;
    let mut assassin = 0;
    for (i, p) in players.iter().enumerate() {
        assert_eq!(p.id, i as u32);
        match &p.role {
            RoleImpl::LoyalOfficial(_) => loyal += 1,
            RoleImpl::Pai(_) => pai += 1,
            RoleImpl::Merlin(_) => merlin += 1,
            RoleImpl::Morgana(_) => morgana += 1,
            RoleImpl::Pawn(_) => pawn += 1,
            RoleImpl::Assassin(_) => assassin += 1,
        }
    }
    assert_eq!((loyal, pai, merlin), (3, 1, 1));
    assert_eq!((morgana, pawn, assassin), (1, 1, 1));
    assert!(check_game_setup(&players));
}

#[test]
fn full_games_run_to_a_verdict() {
    for _ in 0..50 {
        let _verdict = start_game();
    }
}
