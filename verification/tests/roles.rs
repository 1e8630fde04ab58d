use avalon_sim::game::PLAYER_COUNT;
use avalon_sim::info::{CarInfo, GameInfo};
use avalon_sim::role::{
    Assassin, BadRoleImpl, Camp, Description, GoodRoleImpl, LoyalOfficial, Merlin, Morgana, Pai,
    Pawn, Player, Role, RoleImpl, Vote,
};

fn good_player(id: u32) -> Player {
    Player::new(id, RoleImpl::LoyalOfficial(LoyalOfficial::default(PLAYER_COUNT)))
}

fn pawn_player(id: u32) -> Player {
    Player::new(id, RoleImpl::Pawn(Pawn::default()))
}

fn morgana_player(id: u32) -> Player {
    Player::new(id, RoleImpl::Morgana(Morgana::default()))
}

fn car_of(players: Vec<Player>) -> CarInfo {
    let size = players.len();
    CarInfo::new(0, players, size, 0)
}

#[test]
fn camps_presented_by_each_role() {
    assert_eq!(LoyalOfficial::default(8).get_role_camp(), Camp::Good);
    assert_eq!(Pai::default(8).get_role_camp(), Camp::Good);
    assert_eq!(Merlin::default(8).get_role_camp(), Camp::Unknown);
    assert_eq!(Morgana::default().get_role_camp(), Camp::Unknown);
    assert_eq!(Pawn::default().get_role_camp(), Camp::Bad);
    assert_eq!(Assassin::default().get_role_camp(), Camp::Bad);
}

#[test]
fn good_family_always_approves_missions() {
    assert_eq!(LoyalOfficial::default(8).vote_with_round(0), Vote::Approve);
    assert_eq!(LoyalOfficial::default(8).vote_with_round(3), Vote::Approve);
    assert_eq!(Pai::default(8).vote_with_round(4), Vote::Approve);
    assert_eq!(Merlin::default(8).vote_with_round(1), Vote::Approve);
}

#[test]
fn bad_family_approves_only_round_zero() {
    assert_eq!(Morgana::default().vote_with_round(0), Vote::Approve);
    assert_eq!(Morgana::default().vote_with_round(1), Vote::Reject);
    assert_eq!(Pawn::default().vote_with_round(0), Vote::Approve);
    assert_eq!(Pawn::default().vote_with_round(2), Vote::Reject);
    assert_eq!(Assassin::default().vote_with_round(4), Vote::Reject);
}

#[test]
fn good_proposal_accepts_top_scored_team() {
    let role = GoodRoleImpl::new(vec![10, 0, 5, 0, 0, 0, 0, 0]);
    let info = car_of(vec![good_player(0), good_player(2)]);
    // Scores 10 and 5 are the two highest of the table.
    assert!(role.proposal_for_car(7, &info));
}

#[test]
fn good_proposal_rejects_low_scored_member() {
    let role = GoodRoleImpl::new(vec![10, 0, 5, 0, 0, 0, 0, 0]);
    let info = car_of(vec![good_player(0), good_player(1)]);
    // Two scores (10 and 5) strictly exceed player 1's score of 0.
    assert!(!role.proposal_for_car(7, &info));
}

#[test]
fn good_proposal_accepts_all_zero_table() {
    let role = GoodRoleImpl::new(vec![0; 8]);
    let info = car_of(vec![good_player(4), good_player(6), good_player(7)]);
    // No score strictly exceeds 0, so every member is in the top three.
    assert!(role.proposal_for_car(0, &info));
}

#[test]
fn merlin_vetoes_any_true_bad_member() {
    let merlin = Merlin::default(8);
    let with_morgana = car_of(vec![good_player(0), morgana_player(3)]);
    assert!(!merlin.proposal_for_car(4, &with_morgana));
    let with_pawn = car_of(vec![good_player(0), pawn_player(5)]);
    assert!(!merlin.proposal_for_car(4, &with_pawn));
    let all_good = car_of(vec![good_player(0), good_player(1)]);
    assert!(merlin.proposal_for_car(4, &all_good));
}

#[test]
fn morgana_backs_only_teams_with_her_and_no_open_ally() {
    let morgana = Morgana::default();
    let with_self = car_of(vec![good_player(0), morgana_player(3)]);
    assert!(morgana.proposal_for_car(3, &with_self));
    let with_self_and_pawn = car_of(vec![morgana_player(3), pawn_player(5)]);
    assert!(!morgana.proposal_for_car(3, &with_self_and_pawn));
    let without_self = car_of(vec![good_player(0), good_player(1)]);
    assert!(!morgana.proposal_for_car(3, &without_self));
}

#[test]
fn pawn_backs_teams_with_self_or_open_ally() {
    let pawn = Pawn::default();
    let with_self = car_of(vec![good_player(0), pawn_player(5)]);
    assert!(pawn.proposal_for_car(5, &with_self));
    let with_ally = car_of(vec![good_player(0), pawn_player(6)]);
    assert!(pawn.proposal_for_car(5, &with_ally));
    // Morgana presents Unknown, so she does not count as an open ally.
    let with_morgana = car_of(vec![good_player(0), morgana_player(3)]);
    assert!(!pawn.proposal_for_car(5, &with_morgana));
    let all_good = car_of(vec![good_player(0), good_player(1)]);
    assert!(!pawn.proposal_for_car(5, &all_good));
}

#[test]
fn bad_role_impl_shares_family_rules() {
    let bad = BadRoleImpl {};
    assert_eq!(bad.get_role_camp(), Camp::Bad);
    assert_eq!(bad.vote_with_round(0), Vote::Approve);
    assert_eq!(bad.vote_with_round(1), Vote::Reject);
    let with_self = car_of(vec![good_player(0), pawn_player(5)]);
    assert!(bad.proposal_for_car(5, &with_self));
}

#[test]
fn succeeded_round_rewards_team_members() {
    // A single round resolved with no rejects and an empty prior ledger:
    // every team member gains exactly 10, everyone else is unchanged.
    let mut lo = LoyalOfficial::default(8);
    let mut ledger = GameInfo::default();
    let team = vec![good_player(1), good_player(2), good_player(3)];
    ledger.cars.push(CarInfo::new(0, team, 3, 0));
    lo.update_after_vote(0, &ledger);
    assert_eq!(lo.proxy.score, vec![0, 10, 10, 10, 0, 0, 0, 0]);
}

#[test]
fn failed_round_without_prior_success_suspects_everyone() {
    // A round resolved with two rejects and no prior successful round:
    // every player, on the team or not, loses exactly 5 * 2 points.
    let mut lo = LoyalOfficial::default(8);
    let mut ledger = GameInfo::default();
    let team = vec![good_player(1), good_player(2), good_player(3)];
    ledger.cars.push(CarInfo::new(0, team, 3, 2));
    lo.update_after_vote(0, &ledger);
    assert_eq!(lo.proxy.score, vec![-10; 8]);
}

#[test]
fn failed_round_after_success_punishes_newcomers_harder() {
    let mut lo = LoyalOfficial::default(8);
    let mut ledger = GameInfo::default();
    ledger.cars.push(CarInfo::new(0, vec![good_player(0), good_player(1), good_player(2)], 3, 0));
    lo.update_after_vote(0, &ledger);
    assert_eq!(lo.proxy.score, vec![10, 10, 10, 0, 0, 0, 0, 0]);
    // Round 1 fails with one reject; player 2 also rode the successful
    // team, players 3 and 4 are newcomers.
    ledger.cars.push(CarInfo::new(1, vec![good_player(2), good_player(3), good_player(4)], 3, 1));
    lo.update_after_vote(1, &ledger);
    assert_eq!(lo.proxy.score, vec![10, 10, 5, -20, -20, 0, 0, 0]);
}

#[test]
fn merlin_and_pai_share_the_good_heuristic() {
    let mut merlin = Merlin::default(8);
    let mut pai = Pai::default(8);
    let mut ledger = GameInfo::default();
    ledger.cars.push(CarInfo::new(0, vec![good_player(5), good_player(6)], 2, 0));
    merlin.update_after_vote(0, &ledger);
    pai.update_after_vote(0, &ledger);
    assert_eq!(merlin.proxy.score, vec![0, 0, 0, 0, 0, 10, 10, 0]);
    assert_eq!(pai.proxy.score, merlin.proxy.score);
}

#[test]
fn role_dispatch_matches_variants() {
    let p = Player::new(3, RoleImpl::Assassin(Assassin::default()));
    assert_eq!(p.id, 3);
    assert!(matches!(p.role, RoleImpl::Assassin(_)));
    assert_eq!(p.role.get_role_camp(), Camp::Bad);
    assert_eq!(p.role.vote_with_round(2), Vote::Reject);
    let d = Description::Assassin;
    assert!(matches!(d, Description::Assassin));
}
