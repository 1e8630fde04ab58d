//! The round engine: team proposal, mission voting, and the game
//! orchestrator that sequences the configured rounds and computes the
//! final verdict from the ledger.

use vstd::prelude::*;
use vstd::arithmetic::div_mod::{lemma_small_mod, lemma_mod_multiples_vanish};
use rand::Rng;
use rand::seq::SliceRandom;
use crate::info::{car_wf, ledger_wf, CarInfo, CarView, GameInfo};
use crate::role::{
    approves_car, car_distinct, good_score_update, is_good_family, player_views, role_after_vote,
    scores_bounded, vote_of, zero_scores, Assassin, Description, LoyalOfficial, Merlin, Morgana,
    Pai, Pawn, Player, PlayerView, RoleImpl, RoleView, Vote, SCORE_LIMIT, SCORE_TABLE_CAP,
};

verus! {

/// How many rounds one game runs.
pub const ROUND_COUNT: usize = 5;

/// How many players sit in one game.
pub const PLAYER_COUNT: usize = 8;

/// How many times the proposal phase may put a candidate team to the vote
/// before the last-built team stands regardless.
pub const PROPOSAL_MAX_COUNT: usize = 3;

/// How many entries of `s` are `true`.
pub open spec fn count_true(s: Seq<bool>) -> int
    decreases s.len(),
{
    if s.len() == 0 {
        0
    } else {
        count_true(s.drop_last()) + if s.last() { 1int } else { 0int }
    }
}

/// How many ballots of `s` are `Reject`.
pub open spec fn count_rejects(s: Seq<Vote>) -> int
    decreases s.len(),
{
    if s.len() == 0 {
        0
    } else {
        count_rejects(s.drop_last()) + if s.last() == Vote::Reject { 1int } else { 0int }
    }
}

/// How many of the first `round` ledger entries record a lost round, that
/// is, a round with at least one reject vote.
pub open spec fn lost_count(l: Seq<CarView>, round: int) -> int
    decreases round,
{
    if round <= 0 {
        0
    } else {
        lost_count(l, round - 1) + if l[round - 1].reject_count != 0 { 1int } else { 0int }
    }
}

/// A seating order fit to play a game: player `i` sits in slot `i`, and
/// every Good-family score table has exactly one entry per player.
pub open spec fn players_wf(ps: Seq<PlayerView>) -> bool {
    &&& forall|i: int| 0 <= i < ps.len() ==> (#[trigger] ps[i]).id == i
    &&& forall|i: int| 0 <= i < ps.len() ==> (is_good_family((#[trigger] ps[i]).role.descr)
        ==> ps[i].role.scores.len() == ps.len())
}

/// The seat `offset` places clockwise of `leader` at a table of `n` seats,
/// for `leader` and `offset` below `n`.
pub open spec fn seat(leader: int, offset: int, n: int) -> int {
    if leader + offset < n {
        leader + offset
    } else {
        leader + offset - n
    }
}

/// The candidate team the proposal phase builds on rebuild attempt
/// `attempt`: `size` consecutive players clockwise of the leader, with the
/// last slot advanced one seat further past the tail per prior rejection.
pub open spec fn candidate_car(
    ps: Seq<PlayerView>,
    leader: int,
    size: int,
    attempt: int,
) -> Seq<PlayerView> {
    Seq::new(
        size as nat,
        |j: int|
            if j == size - 1 && attempt > 0 {
                ps[seat(leader, size + attempt - 1, ps.len() as int)]
            } else {
                ps[seat(leader, j, ps.len() as int)]
            },
    )
}

/// Whether one player backs the candidate team.
pub open spec fn player_approves(p: PlayerView, car: Seq<PlayerView>, k: int) -> bool {
    approves_car(p.role, p.id, car, k)
}

/// How many of the players back the candidate team.
pub open spec fn approval_count(ps: Seq<PlayerView>, car: Seq<PlayerView>, k: int) -> int
    decreases ps.len(),
{
    if ps.len() == 0 {
        0
    } else {
        approval_count(ps.drop_last(), car, k) + if player_approves(ps.last(), car, k) {
            1int
        } else {
            0int
        }
    }
}

/// A candidate team is accepted when strictly more than half of all
/// players back it.
pub open spec fn car_approved(ps: Seq<PlayerView>, car: Seq<PlayerView>, k: int) -> bool {
    approval_count(ps, car, k) > ps.len() / 2
}

/// The rebuild attempt whose candidate the proposal phase settles on, from
/// attempt `a` onward: the first accepted one, or the last attempt when
/// none is accepted.
pub open spec fn chosen_attempt_from(ps: Seq<PlayerView>, leader: int, size: int, a: int) -> int
    decreases PROPOSAL_MAX_COUNT as int - a,
{
    if a >= PROPOSAL_MAX_COUNT as int - 1 {
        PROPOSAL_MAX_COUNT as int - 1
    } else if car_approved(ps, candidate_car(ps, leader, size, a), size) {
        a
    } else {
        chosen_attempt_from(ps, leader, size, a + 1)
    }
}

/// The team the proposal phase settles on: the candidate of the first
/// accepted attempt, or of the last attempt when none is accepted.
pub open spec fn proposal_result(ps: Seq<PlayerView>, leader: int, size: int) -> Seq<PlayerView> {
    candidate_car(ps, leader, size, chosen_attempt_from(ps, leader, size, 0))
}

/// Every candidate team is made of `size` distinct valid players, because
/// a rebuild never advances the last slot far enough to wrap onto a kept
/// member.
proof fn lemma_candidate_wf(ps: Seq<PlayerView>, leader: int, size: int, attempt: int)
    requires
        players_wf(ps),
        0 < size,
        size + PROPOSAL_MAX_COUNT <= ps.len() + 1,
        0 <= leader < ps.len(),
        0 <= attempt < PROPOSAL_MAX_COUNT,
    ensures
        candidate_car(ps, leader, size, attempt).len() == size,
        car_distinct(candidate_car(ps, leader, size, attempt)),
        forall|j: int| 0 <= j < size ==> 0 <= (#[trigger] candidate_car(
            ps,
            leader,
            size,
            attempt,
        )[j]).id < ps.len(),
{
    let n = ps.len() as int;
    let car = candidate_car(ps, leader, size, attempt);
    assert forall|j: int| 0 <= j < size implies 0 <= (#[trigger] car[j]).id < n by {
        let off = if j == size - 1 && attempt > 0 { size + attempt - 1 } else { j };
        assert(car[j] == ps[seat(leader, off, n)]);
    }
    assert forall|a: int, b: int| 0 <= a < b < size implies car[a].id != car[b].id by {
        let offa = if a == size - 1 && attempt > 0 { size + attempt - 1 } else { a };
        let offb = if b == size - 1 && attempt > 0 { size + attempt - 1 } else { b };
        assert(0 <= offa < n && 0 <= offb < n && offa != offb);
        assert(car[a].id == seat(leader, offa, n) && car[b].id == seat(leader, offb, n));
    }
}

/// Characterizes the settled attempt: every attempt before `a` was
/// rejected, and `a` was either accepted or is the last attempt.
proof fn lemma_chosen_attempt(ps: Seq<PlayerView>, leader: int, size: int, b: int, a: int)
    requires
        0 <= b <= a < PROPOSAL_MAX_COUNT,
        forall|c: int| b <= c < a ==> !car_approved(
            ps,
            #[trigger] candidate_car(ps, leader, size, c),
            size,
        ),
        a < PROPOSAL_MAX_COUNT as int - 1 ==> car_approved(
            ps,
            candidate_car(ps, leader, size, a),
            size,
        ),
    ensures
        chosen_attempt_from(ps, leader, size, b) == a,
    decreases a - b,
{
    if b < a {
        lemma_chosen_attempt(ps, leader, size, b + 1, a);
    }
}

/// A ballot list that records, player by player, who backs the candidate
/// team counts exactly the team's approvals.
proof fn lemma_count_true_matches(
    ballots: Seq<bool>,
    ps: Seq<PlayerView>,
    car: Seq<PlayerView>,
    k: int,
)
    requires
        ballots.len() == ps.len(),
        forall|t: int| 0 <= t < ps.len() ==> ballots[t] == player_approves(
            #[trigger] ps[t],
            car,
            k,
        ),
    ensures
        count_true(ballots) == approval_count(ps, car, k),
    decreases ps.len(),
{
    if ps.len() > 0 {
        assert(ballots.drop_last().len() == ps.drop_last().len());
        assert forall|t: int| 0 <= t < ps.drop_last().len() implies ballots.drop_last()[t]
            == player_approves(#[trigger] ps.drop_last()[t], car, k) by {
            assert(ps.drop_last()[t] == ps[t]);
            assert(ballots.drop_last()[t] == ballots[t]);
        }
        lemma_count_true_matches(ballots.drop_last(), ps.drop_last(), car, k);
    }
}

/// The seat `offset` places clockwise of `leader`, computed by wrapping
/// modulo the table size.
fn seat_index(leader: usize, offset: usize, n: usize) -> (s: usize)
    requires
        0 < n,
        leader < n,
        offset < n,
        leader + offset < usize::MAX,
    ensures
        s as int == seat(leader as int, offset as int, n as int),
        s < n,
{
    let x = leader + offset;
    let s = x % n;
    proof {
        if x < n {
            lemma_small_mod(x as nat, n as nat);
        } else {
            lemma_mod_multiples_vanish(1, x as int - n as int, n as int);
            lemma_small_mod((x - n) as nat, n as nat);
        }
    }
    s
}

/// Duplicates a team, member by member.
fn clone_car(car: &Vec<Player>) -> (r: Vec<Player>)
    ensures
        player_views(r@) == player_views(car@),
{
    let n = car.len();
    let mut r: Vec<Player> = Vec::new();
    let mut j: usize = 0;
    while j < n
        invariant
            j <= n,
            n == car@.len(),
            r@.len() == j,
            forall|t: int| 0 <= t < j ==> (#[trigger] r@[t])@ == car@[t]@,
        decreases n - j,
    {
        r.push(car[j].clone());
        j = j + 1;
    }
    proof {
        assert(player_views(r@) =~= player_views(car@));
    }
    r
}

/// The proposal phase: builds the round's candidate team clockwise of the
/// leader and resolves approval in at most `PROPOSAL_MAX_COUNT` attempts,
/// replacing the last member with the next clockwise candidate after each
/// rejection; when every attempt is rejected, the last-built team stands.
pub fn proposal_for_car(first_car_leader: usize, round_size: usize, players: &Vec<Player>) -> (car:
    Vec<Player>)
    requires
        players_wf(player_views(players@)),
        0 < round_size,
        round_size + PROPOSAL_MAX_COUNT <= players@.len() + 1,
        players@.len() <= crate::role::SCORE_TABLE_CAP,
        first_car_leader < players@.len(),
    ensures
        player_views(car@) == proposal_result(
            player_views(players@),
            first_car_leader as int,
            round_size as int,
        ),
        car@.len() == round_size,
        car_distinct(player_views(car@)),
        forall|j: int| 0 <= j < car@.len() ==> 0 <= (#[trigger] player_views(car@)[j]).id
            < players@.len(),
        exists|a: int|
            0 <= a < PROPOSAL_MAX_COUNT && player_views(car@) == candidate_car(
                player_views(players@),
                first_car_leader as int,
                round_size as int,
                a,
            ),
{
    let n = players.len();
    let ghost ps = player_views(players@);
    let ghost leader = first_car_leader as int;
    let ghost size = round_size as int;

    // Build the initial candidate: `round_size` consecutive players
    // clockwise of the leader.
    let mut car: Vec<Player> = Vec::new();
    let mut j: usize = 0;
    while j < round_size
        invariant
            j <= round_size,
            n == players@.len(),
            ps == player_views(players@),
            leader == first_car_leader as int,
            0 < round_size,
            round_size + PROPOSAL_MAX_COUNT <= n + 1,
            n <= crate::role::SCORE_TABLE_CAP,
            first_car_leader < n,
            car@.len() == j,
            forall|t: int| 0 <= t < j ==> (#[trigger] car@[t])@ == ps[seat(leader, t, n as int)],
        decreases round_size - j,
    {
        let idx = seat_index(first_car_leader, j, n);
        car.push(players[idx].clone());
        j = j + 1;
    }
    proof {
        assert(player_views(car@) =~= candidate_car(ps, leader, size, 0));
    }

    // Put the candidate to the vote, rebuilding its tail after each
    // rejection.
    let mut i: usize = 0;
    let mut accepted = false;
    while !accepted && i < PROPOSAL_MAX_COUNT
        invariant
            i <= PROPOSAL_MAX_COUNT,
            n == players@.len(),
            ps == player_views(players@),
            leader == first_car_leader as int,
            size == round_size as int,
            players_wf(ps),
            0 < round_size,
            round_size + PROPOSAL_MAX_COUNT <= n + 1,
            n <= crate::role::SCORE_TABLE_CAP,
            first_car_leader < n,
            car@.len() == round_size,
            !accepted && i < PROPOSAL_MAX_COUNT ==> player_views(car@) == candidate_car(
                ps,
                leader,
                size,
                i as int,
            ),
            !accepted && i == PROPOSAL_MAX_COUNT ==> player_views(car@) == candidate_car(
                ps,
                leader,
                size,
                PROPOSAL_MAX_COUNT as int - 1,
            ),
            forall|c: int| 0 <= c < i ==> !car_approved(
                ps,
                #[trigger] candidate_car(ps, leader, size, c),
                size,
            ),
            accepted ==> i < PROPOSAL_MAX_COUNT && player_views(car@) == candidate_car(
                ps,
                leader,
                size,
                i as int,
            ) && car_approved(ps, candidate_car(ps, leader, size, i as int), size),
        decreases PROPOSAL_MAX_COUNT - i + if accepted { 0int } else { 1int },
    {
        proof {
            lemma_candidate_wf(ps, leader, size, i as int);
        }
        let info_car = clone_car(&car);
        let info = CarInfo::new(0, info_car, round_size, 0);
        let ghost cand = candidate_car(ps, leader, size, i as int);
        proof {
            assert(info@.car == cand);
        }
        let mut ballots: Vec<bool> = Vec::new();
        let mut t: usize = 0;
        while t < n
            invariant
                t <= n,
                n == players@.len(),
                ps == player_views(players@),
                players_wf(ps),
                size == round_size as int,
                info@.car == cand,
                info@.car_size == size,
                cand.len() == size,
                0 < size,
                size + PROPOSAL_MAX_COUNT <= n + 1,
                forall|j2: int| 0 <= j2 < cand.len() ==> 0 <= (#[trigger] cand[j2]).id < n,
                ballots@.len() == t,
                forall|t2: int| 0 <= t2 < t ==> ballots@[t2] == player_approves(
                    #[trigger] ps[t2],
                    cand,
                    size,
                ),
            decreases n - t,
        {
            proof {
                assert(ps[t as int] == players@[t as int]@);
            }
            let b = players[t].role.proposal_for_car(players[t].id, &info);
            ballots.push(b);
            t = t + 1;
        }
        if check_proposal_res(&ballots) {
            accepted = true;
            proof {
                lemma_count_true_matches(ballots@, ps, cand, size);
            }
        } else {
            proof {
                lemma_count_true_matches(ballots@, ps, cand, size);
                assert(!car_approved(ps, cand, size));
            }
            if i + 1 < PROPOSAL_MAX_COUNT {
                let ghost before = player_views(car@);
                car.pop();
                let idx = seat_index(first_car_leader, round_size + i, n);
                car.push(players[idx].clone());
                proof {
                    assert forall|t2: int| 0 <= t2 < size implies #[trigger] player_views(car@)[t2]
                        == candidate_car(ps, leader, size, i as int + 1)[t2] by {
                        if t2 < size - 1 {
                            assert(player_views(car@)[t2] == before[t2]);
                            assert(before[t2] == cand[t2]);
                        } else {
                            assert(player_views(car@)[t2] == players@[idx as int]@);
                        }
                    }
                    assert(player_views(car@) =~= candidate_car(ps, leader, size, i as int + 1));
                }
            }
            i = i + 1;
        }
    }
    proof {
        if accepted {
            lemma_chosen_attempt(ps, leader, size, 0, i as int);
        } else {
            lemma_chosen_attempt(ps, leader, size, 0, PROPOSAL_MAX_COUNT as int - 1);
        }
        let a = chosen_attempt_from(ps, leader, size, 0);
        lemma_candidate_wf(ps, leader, size, a);
        assert(0 <= a < PROPOSAL_MAX_COUNT && player_views(car@) == candidate_car(
            ps,
            leader,
            size,
            a,
        ));
    }
    car
}

/// How many team members cast `Reject` in the given round's mission vote.
pub open spec fn car_reject_count(car: Seq<PlayerView>, round: int) -> int
    decreases car.len(),
{
    if car.len() == 0 {
        0
    } else {
        car_reject_count(car.drop_last(), round) + if vote_of(car.last().role.descr, round)
            == Vote::Reject {
            1int
        } else {
            0int
        }
    }
}

/// A team casts between zero and `car.len()` reject ballots.
pub proof fn lemma_car_reject_count_bounds(car: Seq<PlayerView>, round: int)
    ensures
        0 <= car_reject_count(car, round) <= car.len(),
    decreases car.len(),
{
    if car.len() > 0 {
        lemma_car_reject_count_bounds(car.drop_last(), round);
    }
}

/// A ballot list that records, member by member, each team member's vote
/// counts exactly the team's rejects.
proof fn lemma_count_rejects_matches(votes: Seq<Vote>, car: Seq<PlayerView>, round: int)
    requires
        votes.len() == car.len(),
        forall|t: int| 0 <= t < car.len() ==> votes[t] == vote_of(
            (#[trigger] car[t]).role.descr,
            round,
        ),
    ensures
        count_rejects(votes) == car_reject_count(car, round),
    decreases car.len(),
{
    if car.len() > 0 {
        assert forall|t: int| 0 <= t < car.drop_last().len() implies votes.drop_last()[t]
            == vote_of((#[trigger] car.drop_last()[t]).role.descr, round) by {
            assert(car.drop_last()[t] == car[t]);
            assert(votes.drop_last()[t] == votes[t]);
        }
        lemma_count_rejects_matches(votes.drop_last(), car.drop_last(), round);
    }
}

/// The ledger entry the mission vote phase writes for a finalized team.
pub open spec fn round_entry(car: Seq<PlayerView>, round: int) -> CarView {
    CarView {
        round,
        car,
        car_size: car.len() as int,
        reject_count: car_reject_count(car, round),
    }
}

/// The players after every role was notified of the resolved round:
/// identities keep their seats and each role reacts to the new ledger.
pub open spec fn players_after_round(
    ps: Seq<PlayerView>,
    l: Seq<CarView>,
    round: int,
) -> Seq<PlayerView> {
    Seq::new(
        ps.len(),
        |i: int| PlayerView { id: ps[i].id, role: role_after_vote(ps[i].role, l, round) },
    )
}

/// Every Good-family score table of the seating order stays within `b`.
pub open spec fn players_scores_bounded(ps: Seq<PlayerView>, b: int) -> bool {
    forall|i: int| 0 <= i < ps.len() ==> (is_good_family((#[trigger] ps[i]).role.descr)
        ==> scores_bounded(ps[i].role.scores, b))
}

/// The mission vote phase: each finalized team member casts its ballot,
/// the round's entry is written to the ledger exactly once, and only then
/// is every player notified of the resolved round.
pub fn vote_for_car(
    round: usize,
    car: Vec<Player>,
    players: &mut Vec<Player>,
    ledger: &mut GameInfo,
)
    requires
        old(ledger)@.len() == round,
        players_wf(player_views(old(players)@)),
        players_scores_bounded(player_views(old(players)@), SCORE_LIMIT as int),
        old(players)@.len() <= SCORE_TABLE_CAP,
        ledger_wf(old(ledger)@, old(players)@.len() as int),
        car_distinct(player_views(car@)),
        car@.len() <= old(players)@.len(),
        forall|j: int| 0 <= j < car@.len() ==> 0 <= (#[trigger] player_views(car@)[j]).id < old(
            players,
        )@.len(),
    ensures
        final(ledger)@ == old(ledger)@.push(round_entry(player_views(car@), round as int)),
        player_views(final(players)@) == players_after_round(
            player_views(old(players)@),
            final(ledger)@,
            round as int,
        ),
        final(players)@.len() == old(players)@.len(),
{
    let ghost cv = player_views(car@);
    let ghost n = players@.len() as int;
    let n_car = car.len();

    // Each team member casts its ballot.
    let mut votes: Vec<Vote> = Vec::new();
    let mut j: usize = 0;
    while j < n_car
        invariant
            j <= n_car,
            n_car == car@.len(),
            cv == player_views(car@),
            votes@.len() == j,
            forall|t: int| 0 <= t < j ==> votes@[t] == vote_of(
                (#[trigger] cv[t]).role.descr,
                round as int,
            ),
        decreases n_car - j,
    {
        proof {
            assert(cv[j as int] == car@[j as int]@);
        }
        let v = car[j].role.vote_with_round(round);
        votes.push(v);
        j = j + 1;
    }
    let rc = count_vote_res(&votes);
    proof {
        lemma_count_rejects_matches(votes@, cv, round as int);
        lemma_car_reject_count_bounds(cv, round as int);
    }

    // Write the round's entry, exactly once, before any role is notified.
    let rcu = rc as usize;
    let entry = CarInfo::new(round, car, n_car, rcu);
    let ghost ev = round_entry(cv, round as int);
    proof {
        assert(entry@ == ev);
    }
    ledger.cars.push(entry);
    let ghost l2 = old(ledger)@.push(ev);
    proof {
        assert(ledger@ =~= l2);
        assert(car_wf(ev, n));
        assert forall|r: int| 0 <= r < l2.len() implies car_wf(#[trigger] l2[r], n) by {
            if r < l2.len() - 1 {
                assert(l2[r] == old(ledger)@[r]);
            }
        }
    }

    // Notify every player of the resolved round.
    let ghost ps0 = player_views(old(players)@);
    let np = players.len();
    let mut t: usize = 0;
    while t < np
        invariant
            t <= np,
            np == players@.len(),
            n == np as int,
            np <= SCORE_TABLE_CAP,
            ps0 == player_views(old(players)@),
            ps0.len() == np,
            players_wf(ps0),
            players_scores_bounded(ps0, SCORE_LIMIT as int),
            ledger@ == l2,
            ledger@.len() == round + 1,
            ledger_wf(l2, n),
            forall|i: int| t <= i < np ==> (#[trigger] players@[i])@ == ps0[i],
            forall|i: int| 0 <= i < t ==> (#[trigger] players@[i])@ == (PlayerView {
                id: ps0[i].id,
                role: role_after_vote(ps0[i].role, l2, round as int),
            }),
        decreases np - t,
    {
        proof {
            assert(players@[t as int]@ == ps0[t as int]);
        }
        players[t].role.update_after_vote(round, ledger);
        t = t + 1;
    }
    proof {
        assert(player_views(players@) =~= players_after_round(ps0, l2, round as int));
    }
}

/// A candidate team passes the proposal vote exactly when strictly more
/// than half of all ballots approve it.
pub fn check_proposal_res(proposal_res: &Vec<bool>) -> (r: bool)
    ensures
        r == (count_true(proposal_res@) > proposal_res@.len() / 2),
{
    let n = proposal_res.len();
    let mut count: usize = 0;
    let mut i: usize = 0;
    while i < n
        invariant
            i <= n,
            n == proposal_res@.len(),
            count <= i,
            count as int == count_true(proposal_res@.take(i as int)),
        decreases n - i,
    {
        proof {
            assert(proposal_res@.take(i + 1).drop_last() =~= proposal_res@.take(i as int));
            assert(proposal_res@.take(i + 1).last() == proposal_res@[i as int]);
        }
        if proposal_res[i] {
            count = count + 1;
        }
        i = i + 1;
    }
    proof {
        assert(proposal_res@.take(n as int) =~= proposal_res@);
    }
    count > n / 2
}

/// Counts the `Reject` ballots of a finalized team's mission vote.
pub fn count_vote_res(vote_res: &Vec<Vote>) -> (r: u32)
    requires
        vote_res@.len() <= u32::MAX,
    ensures
        r as int == count_rejects(vote_res@),
{
    let n = vote_res.len();
    let mut count: usize = 0;
    let mut i: usize = 0;
    while i < n
        invariant
            i <= n,
            n == vote_res@.len(),
            count <= i,
            count as int == count_rejects(vote_res@.take(i as int)),
        decreases n - i,
    {
        proof {
            assert(vote_res@.take(i + 1).drop_last() =~= vote_res@.take(i as int));
            assert(vote_res@.take(i + 1).last() == vote_res@[i as int]);
        }
        if vote_res[i] == Vote::Reject {
            count = count + 1;
        }
        i = i + 1;
    }
    proof {
        assert(vote_res@.take(n as int) =~= vote_res@);
    }
    count as u32
}

/// Reads the game's outcome off the ledger: the Good faction wins exactly
/// when at most `round_count / 2` of the first `round` rounds were lost.
pub fn check_game_res(round: usize, round_count: usize, ledger: &GameInfo) -> (r: bool)
    requires
        round <= ledger@.len(),
    ensures
        r == (lost_count(ledger@, round as int) <= round_count / 2),
{
    let mut lost: usize = 0;
    let mut i: usize = 0;
    while i < round
        invariant
            i <= round,
            round <= ledger@.len(),
            ledger@.len() == ledger.cars@.len(),
            lost <= i,
            lost as int == lost_count(ledger@, i as int),
        decreases round - i,
    {
        proof {
            assert(ledger@[i as int] == ledger.cars@[i as int]@);
        }
        if ledger.cars[i].reject_count != 0 {
            lost = lost + 1;
        }
        i = i + 1;
    }
    lost <= round_count / 2
}

/// The configured team size of each round.
pub open spec fn round_sizes() -> Seq<int> {
    seq![3int, 4int, 4int, 5int, 5int]
}

/// The configured team size of each round, as the orchestrator reads it.
pub fn car_round() -> (v: Vec<usize>)
    ensures
        v@.len() == ROUND_COUNT,
        forall|r: int| 0 <= r < ROUND_COUNT ==> #[trigger] v@[r] as int == round_sizes()[r],
        forall|r: int| 0 <= r < ROUND_COUNT ==> 0 < #[trigger] v@[r] && v@[r] + PROPOSAL_MAX_COUNT
            <= PLAYER_COUNT,
{
    let mut v: Vec<usize> = Vec::new();
    v.push(3);
    v.push(4);
    v.push(4);
    v.push(5);
    v.push(5);
    proof {
        assert(v@ =~= seq![3usize, 4usize, 4usize, 5usize, 5usize]);
        assert forall|r: int| 0 <= r < ROUND_COUNT implies #[trigger] v@[r] as int
            == round_sizes()[r] && 0 < v@[r] && v@[r] + PROPOSAL_MAX_COUNT <= PLAYER_COUNT by {
            if r == 0 {
            } else if r == 1 {
            } else if r == 2 {
            } else if r == 3 {
            } else {
                assert(r == 4);
            }
        }
    }
    v
}

/// One resolved round, starting from the players and ledger left by the
/// previous rounds: the proposal phase settles a team for the round's
/// nominating leader, the team's entry is appended, and every role reacts.
pub open spec fn game_step(
    ps: Seq<PlayerView>,
    l: Seq<CarView>,
    first: int,
    round: int,
) -> (Seq<PlayerView>, Seq<CarView>) {
    let leader = seat(first, round, ps.len() as int);
    let car = proposal_result(ps, leader, round_sizes()[round]);
    let l2 = l.push(round_entry(car, round));
    (players_after_round(ps, l2, round), l2)
}

/// The players and ledger after the first `round` rounds of a game whose
/// nominating leader starts at `first` and advances one seat per round.
pub open spec fn game_upto(ps0: Seq<PlayerView>, first: int, round: int) -> (
    Seq<PlayerView>,
    Seq<CarView>,
)
    decreases round,
{
    if round <= 0 {
        (ps0, Seq::empty())
    } else {
        let prev = game_upto(ps0, first, round - 1);
        game_step(prev.0, prev.1, first, round - 1)
    }
}

/// The full ledger of one game.
pub open spec fn game_ledger(ps0: Seq<PlayerView>, first: int) -> Seq<CarView> {
    game_upto(ps0, first, ROUND_COUNT as int).1
}

/// The verdict read off a full ledger: the Good faction wins exactly when
/// at most half of the rounds, rounded down, were lost.
pub open spec fn good_wins(l: Seq<CarView>) -> bool {
    lost_count(l, ROUND_COUNT as int) <= ROUND_COUNT as int / 2
}

/// The verdict of one game.
pub open spec fn game_verdict(ps0: Seq<PlayerView>, first: int) -> bool {
    good_wins(game_ledger(ps0, first))
}

/// A seating order ready to start a game: exactly `PLAYER_COUNT` players,
/// each in its own slot, every Good-family score table all zero.
pub open spec fn setup_wf(ps: Seq<PlayerView>) -> bool {
    &&& ps.len() == PLAYER_COUNT
    &&& players_wf(ps)
    &&& forall|i: int| 0 <= i < ps.len() ==> (is_good_family((#[trigger] ps[i]).role.descr)
        ==> ps[i].role.scores == zero_scores(ps.len() as int))
}

/// A score update after a round with at most five rejects moves no score
/// by more than 25 points.
proof fn lemma_good_update_bounded(scores: Seq<int>, l: Seq<CarView>, round: int, b: int)
    requires
        scores_bounded(scores, b),
        0 <= round < l.len(),
        0 <= l[round].reject_count <= 5,
    ensures
        scores_bounded(good_score_update(scores, l, round), b + 25),
{
    let s2 = good_score_update(scores, l, round);
    assert forall|i: int| 0 <= i < s2.len() implies -(b + 25) <= #[trigger] s2[i] <= b + 25 by {
        assert(-b <= scores[i] <= b);
    }
}

/// The game orchestrator's round loop: runs the configured rounds against
/// the given seating order, the nominating leader starting at
/// `first_car_leader` and advancing one seat per round, and returns the
/// completed ledger.
pub fn run_rounds(players: &mut Vec<Player>, first_car_leader: usize) -> (ledger: GameInfo)
    requires
        setup_wf(player_views(old(players)@)),
        first_car_leader < PLAYER_COUNT,
    ensures
        ledger@ == game_ledger(player_views(old(players)@), first_car_leader as int),
        ledger@.len() == ROUND_COUNT,
        forall|r: int| 0 <= r < ROUND_COUNT ==> (#[trigger] ledger@[r]).car.len()
            == round_sizes()[r],
        forall|r: int| 0 <= r < ROUND_COUNT ==> car_distinct((#[trigger] ledger@[r]).car),
        forall|r: int| 0 <= r < ROUND_COUNT ==> (#[trigger] ledger@[r]).round == r,
        ledger_wf(ledger@, PLAYER_COUNT as int),
        player_views(final(players)@) == game_upto(
            player_views(old(players)@),
            first_car_leader as int,
            ROUND_COUNT as int,
        ).0,
{
    let ghost ps0 = player_views(old(players)@);
    let ghost first = first_car_leader as int;
    let sizes = car_round();
    let mut ledger = GameInfo::default();
    let mut round: usize = 0;
    while round < ROUND_COUNT
        invariant
            round <= ROUND_COUNT,
            ps0 == player_views(old(players)@),
            first == first_car_leader as int,
            first_car_leader < PLAYER_COUNT,
            setup_wf(ps0),
            sizes@.len() == ROUND_COUNT,
            forall|r: int| 0 <= r < ROUND_COUNT ==> #[trigger] sizes@[r] as int
                == round_sizes()[r],
            forall|r: int| 0 <= r < ROUND_COUNT ==> 0 < #[trigger] sizes@[r] && sizes@[r]
                + PROPOSAL_MAX_COUNT <= PLAYER_COUNT,
            players@.len() == PLAYER_COUNT,
            player_views(players@) == game_upto(ps0, first, round as int).0,
            ledger@ == game_upto(ps0, first, round as int).1,
            ledger@.len() == round,
            players_wf(player_views(players@)),
            players_scores_bounded(player_views(players@), 25 * round as int),
            ledger_wf(ledger@, PLAYER_COUNT as int),
            forall|r: int| 0 <= r < round ==> (#[trigger] ledger@[r]).car.len()
                == round_sizes()[r],
            forall|r: int| 0 <= r < round ==> car_distinct((#[trigger] ledger@[r]).car),
            forall|r: int| 0 <= r < round ==> (#[trigger] ledger@[r]).round == r,
        decreases ROUND_COUNT - round,
    {
        let ghost ps_r = player_views(players@);
        let ghost l_r = ledger@;
        let leader = seat_index(first_car_leader, round, PLAYER_COUNT);
        let round_size = sizes[round];
        let car = proposal_for_car(leader, round_size, players);
        proof {
            lemma_car_reject_count_bounds(player_views(car@), round as int);
        }
        vote_for_car(round, car, players, &mut ledger);
        round = round + 1;
        proof {
            let stepped = game_step(ps_r, l_r, first, round as int - 1);
            assert(ledger@ == stepped.1);
            assert(player_views(players@) == stepped.0);
            assert(game_upto(ps0, first, round as int) == stepped);
            let e = ledger@[round as int - 1];
            assert(e.car.len() == round_sizes()[round as int - 1]);
            assert(0 <= e.reject_count <= 5);
            assert forall|i: int|
                0 <= i < PLAYER_COUNT && is_good_family(
                    (#[trigger] player_views(players@)[i]).role.descr,
                ) implies scores_bounded(
                player_views(players@)[i].role.scores,
                25 * round as int,
            ) by {
                lemma_good_update_bounded(
                    ps_r[i].role.scores,
                    ledger@,
                    round as int - 1,
                    25 * (round as int - 1),
                );
            }
        }
    }
    ledger
}

/// Relies on rand's `thread_rng` and `Rng::gen_range`: a random index drawn
/// from `0..n`, which is all the library assumes of it.
#[verifier::external_body]
fn random_below(n: usize) -> (r: usize)
    requires
        0 < n,
    ensures
        r < n,
{
    rand::thread_rng().gen_range(0..n)
}

/// Relies on rand's `SliceRandom::shuffle`: an in-place permutation of the
/// elements, so their multiset — and that of their models — is preserved.
#[verifier::external_body]
fn shuffle_roles(roles: &mut Vec<RoleImpl>)
    ensures
        final(roles)@.len() == old(roles)@.len(),
        final(roles)@.to_multiset() == old(roles)@.to_multiset(),
        final(roles)@.map_values(|r: RoleImpl| r@).to_multiset() == old(roles)@.map_values(
            |r: RoleImpl| r@,
        ).to_multiset(),
{
    roles.shuffle(&mut rand::thread_rng());
}

/// The role models of the fixed roster every game is played with: three
/// loyal officials, Pai, Merlin, Morgana, a pawn and an assassin.
pub open spec fn standard_roster() -> Seq<RoleView> {
    seq![
        RoleView { descr: Description::LoyalOfficial, scores: zero_scores(PLAYER_COUNT as int) },
        RoleView { descr: Description::LoyalOfficial, scores: zero_scores(PLAYER_COUNT as int) },
        RoleView { descr: Description::LoyalOfficial, scores: zero_scores(PLAYER_COUNT as int) },
        RoleView { descr: Description::Pai, scores: zero_scores(PLAYER_COUNT as int) },
        RoleView { descr: Description::Merlin, scores: zero_scores(PLAYER_COUNT as int) },
        RoleView { descr: Description::Morgana, scores: Seq::empty() },
        RoleView { descr: Description::Pawn, scores: Seq::empty() },
        RoleView { descr: Description::Assassin, scores: Seq::empty() },
    ]
}

/// Creates the fixed roster, shuffles it over the seats, and binds each
/// role to its seat's identity.
pub fn init_players() -> (players: Vec<Player>)
    ensures
        setup_wf(player_views(players@)),
        player_views(players@).map_values(|p: PlayerView| p.role).to_multiset()
            == standard_roster().to_multiset(),
{
    broadcast use vstd::seq_lib::group_to_multiset_ensures;

    let mut roles: Vec<RoleImpl> = Vec::new();
    roles.push(RoleImpl::LoyalOfficial(LoyalOfficial::default(PLAYER_COUNT)));
    roles.push(RoleImpl::LoyalOfficial(LoyalOfficial::default(PLAYER_COUNT)));
    roles.push(RoleImpl::LoyalOfficial(LoyalOfficial::default(PLAYER_COUNT)));
    roles.push(RoleImpl::Pai(Pai::default(PLAYER_COUNT)));
    roles.push(RoleImpl::Merlin(Merlin::default(PLAYER_COUNT)));
    roles.push(RoleImpl::Morgana(Morgana::default()));
    roles.push(RoleImpl::Pawn(Pawn::default()));
    roles.push(RoleImpl::Assassin(Assassin::default()));
    proof {
        assert(roles@.map_values(|r: RoleImpl| r@) =~= standard_roster());
    }
    shuffle_roles(&mut roles);
    let ghost rs = roles@;
    proof {
        assert(rs.map_values(|r: RoleImpl| r@).to_multiset() == standard_roster().to_multiset());
        assert forall|i: int|
            0 <= i < rs.len() && is_good_family((#[trigger] rs[i])@.descr)
            implies rs[i]@.scores == zero_scores(PLAYER_COUNT as int) by {
            let views = rs.map_values(|r: RoleImpl| r@);
            assert(views[i] == rs[i]@);
            assert(views.contains(views[i]));
            assert(views.to_multiset().count(views[i]) > 0);
            assert(standard_roster().to_multiset().count(views[i]) > 0);
            assert(standard_roster().contains(views[i]));
            let j = choose|j: int|
                0 <= j < standard_roster().len() && standard_roster()[j] == views[i];
            assert(is_good_family(standard_roster()[j].descr) ==> standard_roster()[j].scores
                == zero_scores(PLAYER_COUNT as int));
        }
    }
    let mut players: Vec<Player> = Vec::new();
    let mut i: usize = 0;
    while i < PLAYER_COUNT
        invariant
            i <= PLAYER_COUNT,
            rs.len() == PLAYER_COUNT,
            roles@ == rs.skip(i as int),
            players@.len() == i,
            forall|t: int| 0 <= t < i ==> (#[trigger] players@[t])@.id == t,
            forall|t: int| 0 <= t < i ==> (#[trigger] players@[t])@.role == rs[t]@,
        decreases PLAYER_COUNT - i,
    {
        proof {
            assert(roles@[0] == rs.skip(i as int)[0]);
            assert(rs.skip(i as int)[0] == rs[i as int]);
        }
        let role = roles.remove(0);
        players.push(Player::new(i as u32, role));
        proof {
            assert(roles@ =~= rs.skip(i as int + 1));
        }
        i = i + 1;
    }
    proof {
        assert(player_views(players@).map_values(|p: PlayerView| p.role) =~= rs.map_values(
            |r: RoleImpl| r@,
        ));
        assert(setup_wf(player_views(players@)));
    }
    players
}

/// Whether a score table reads as `n` zeroes.
fn is_zero_table(score: &Vec<i32>, n: usize) -> (r: bool)
    ensures
        r == (crate::role::int_scores(score@) == zero_scores(n as int)),
{
    let ghost s = crate::role::int_scores(score@);
    if score.len() != n {
        proof {
            assert(s.len() != zero_scores(n as int).len());
        }
        return false;
    }
    let mut i: usize = 0;
    while i < n
        invariant
            i <= n,
            n == score@.len(),
            s == crate::role::int_scores(score@),
            forall|t: int| 0 <= t < i ==> #[trigger] s[t] == 0,
        decreases n - i,
    {
        if score[i] != 0 {
            proof {
                assert(s[i as int] != zero_scores(n as int)[i as int]);
            }
            return false;
        }
        i = i + 1;
    }
    proof {
        assert(s =~= zero_scores(n as int));
    }
    true
}

/// Validates a seating order before any round runs, as game setup should:
/// exactly `PLAYER_COUNT` players, each holding the identity of its seat,
/// and every Good-family score table of one zero entry per player.
pub fn check_game_setup(players: &Vec<Player>) -> (r: bool)
    ensures
        r == setup_wf(player_views(players@)),
{
    let ghost ps = player_views(players@);
    if players.len() != PLAYER_COUNT {
        return false;
    }
    let mut i: usize = 0;
    while i < PLAYER_COUNT
        invariant
            i <= PLAYER_COUNT,
            players@.len() == PLAYER_COUNT,
            ps == player_views(players@),
            forall|t: int| 0 <= t < i ==> (#[trigger] ps[t]).id == t,
            forall|t: int| 0 <= t < i ==> (is_good_family((#[trigger] ps[t]).role.descr)
                ==> ps[t].role.scores == zero_scores(PLAYER_COUNT as int)),
        decreases PLAYER_COUNT - i,
    {
        proof {
            assert(ps[i as int] == players@[i as int]@);
        }
        if players[i].id != i as u32 {
            return false;
        }
        let table_ok = match &players[i].role {
            RoleImpl::LoyalOfficial(x) => is_zero_table(&x.proxy.score, PLAYER_COUNT),
            RoleImpl::Pai(x) => is_zero_table(&x.proxy.score, PLAYER_COUNT),
            RoleImpl::Merlin(x) => is_zero_table(&x.proxy.score, PLAYER_COUNT),
            RoleImpl::Morgana(_) => true,
            RoleImpl::Pawn(_) => true,
            RoleImpl::Assassin(_) => true,
        };
        if !table_ok {
            return false;
        }
        i = i + 1;
    }
    true
}

/// The players' identities and role variants never change over a game;
/// only the Good family's score tables do.  The ledger grows by exactly
/// one entry per round.
proof fn lemma_game_upto_shape(ps0: Seq<PlayerView>, first: int, round: int)
    requires
        0 <= round,
    ensures
        game_upto(ps0, first, round).0.len() == ps0.len(),
        game_upto(ps0, first, round).1.len() == round,
        forall|i: int| 0 <= i < ps0.len() ==> (#[trigger] game_upto(ps0, first, round).0[i]).id
            == ps0[i].id,
        forall|i: int| 0 <= i < ps0.len() ==> (#[trigger] game_upto(
            ps0,
            first,
            round,
        ).0[i]).role.descr == ps0[i].role.descr,
    decreases round,
{
    if round > 0 {
        lemma_game_upto_shape(ps0, first, round - 1);
    }
}

/// The score table every Good-family role holds after the first `upto`
/// rounds, read off the ledger alone: the all-zero table folded through
/// the Good-heuristic update, entry by entry.
pub open spec fn scores_after(l: Seq<CarView>, upto: int, n: int) -> Seq<int>
    decreases upto,
{
    if upto <= 0 {
        zero_scores(n)
    } else {
        good_score_update(scores_after(l, upto - 1, n), l, upto - 1)
    }
}

/// A successful round found at or before `r` is a valid round index.
proof fn lemma_prior_success_bounds(l: Seq<CarView>, r: int)
    ensures
        match crate::role::prior_success(l, r) {
            Some(p) => 0 <= p <= r,
            None => true,
        },
    decreases r + 1,
{
    if r >= 0 && l[r].reject_count != 0 {
        lemma_prior_success_bounds(l, r - 1);
    }
}

/// The backward search for a successful round never reads past `r`, so an
/// entry appended later does not change it.
proof fn lemma_prior_success_prefix(l: Seq<CarView>, e: CarView, r: int)
    requires
        r < l.len(),
    ensures
        crate::role::prior_success(l.push(e), r) == crate::role::prior_success(l, r),
    decreases r + 1,
{
    if r >= 0 {
        assert(l.push(e)[r] == l[r]);
        if l[r].reject_count != 0 {
            lemma_prior_success_prefix(l, e, r - 1);
        }
    }
}

/// A round's score update never reads past that round's entry, so an
/// entry appended later does not change it.
proof fn lemma_good_score_update_prefix(scores: Seq<int>, l: Seq<CarView>, e: CarView, round: int)
    requires
        0 <= round < l.len(),
    ensures
        good_score_update(scores, l.push(e), round) == good_score_update(scores, l, round),
{
    let l2 = l.push(e);
    assert(l2[round] == l[round]);
    lemma_prior_success_prefix(l, e, round - 1);
    lemma_prior_success_bounds(l, round - 1);
    match crate::role::prior_success(l, round - 1) {
        Some(p) => {
            assert(l2[p] == l[p]);
            assert(good_score_update(scores, l2, round) =~= good_score_update(scores, l, round));
        },
        None => {
            assert(good_score_update(scores, l2, round) =~= good_score_update(scores, l, round));
        },
    }
}

/// The fold of the first `upto` rounds reads only those rounds' entries.
proof fn lemma_scores_after_prefix(l: Seq<CarView>, e: CarView, upto: int, n: int)
    requires
        upto <= l.len(),
    ensures
        scores_after(l.push(e), upto, n) == scores_after(l, upto, n),
    decreases upto,
{
    if upto > 0 {
        lemma_scores_after_prefix(l, e, upto - 1, n);
        lemma_good_score_update_prefix(scores_after(l, upto - 1, n), l, e, upto - 1);
    }
}

/// The Good-heuristic updates are deterministic: a Good-family player's
/// score table after any number of rounds is a function of the resolved
/// ledger entries alone — the all-zero table folded through the update —
/// whichever seat holds it.
pub proof fn lemma_good_table_is_ledger_fold(
    ps0: Seq<PlayerView>,
    first: int,
    round: int,
    a: int,
)
    requires
        setup_wf(ps0),
        0 <= round,
        0 <= a < ps0.len(),
        is_good_family(ps0[a].role.descr),
    ensures
        game_upto(ps0, first, round).0[a].role.scores == scores_after(
            game_upto(ps0, first, round).1,
            round,
            ps0.len() as int,
        ),
    decreases round,
{
    let n = ps0.len() as int;
    lemma_game_upto_shape(ps0, first, round);
    if round > 0 {
        lemma_good_table_is_ledger_fold(ps0, first, round - 1, a);
        lemma_game_upto_shape(ps0, first, round - 1);
        let prev = game_upto(ps0, first, round - 1);
        let stepped = game_upto(ps0, first, round);
        let leader = seat(first, round - 1, prev.0.len() as int);
        let car = proposal_result(prev.0, leader, round_sizes()[round - 1]);
        let e = round_entry(car, round - 1);
        assert(stepped.1 == prev.1.push(e));
        assert(stepped.0[a].role.scores == good_score_update(
            prev.0[a].role.scores,
            stepped.1,
            round - 1,
        ));
        lemma_scores_after_prefix(prev.1, e, round - 1, n);
    }
}

/// The Good-heuristic updates are deterministic, so the Good-family
/// players' independently kept score tables stay identical to one another
/// after every round: they all start at zero and process the same ledger
/// entries in the same order.
pub proof fn lemma_good_tables_synchronized(
    ps0: Seq<PlayerView>,
    first: int,
    round: int,
    a: int,
    b: int,
)
    requires
        setup_wf(ps0),
        0 <= round,
        0 <= a < ps0.len(),
        0 <= b < ps0.len(),
        is_good_family(ps0[a].role.descr),
        is_good_family(ps0[b].role.descr),
    ensures
        game_upto(ps0, first, round).0[a].role.scores == game_upto(
            ps0,
            first,
            round,
        ).0[b].role.scores,
{
    lemma_good_table_is_ledger_fold(ps0, first, round, a);
    lemma_good_table_is_ledger_fold(ps0, first, round, b);
}

/// A game of `r` rounds loses between zero and `r` of them.
pub proof fn lemma_lost_count_bounds(l: Seq<CarView>, r: int)
    ensures
        0 <= lost_count(l, r),
        r >= 0 ==> lost_count(l, r) <= r,
    decreases r,
{
    if r > 0 {
        lemma_lost_count_bounds(l, r - 1);
    }
}

/// The verdict is monotone in the number of lost rounds: a game that loses
/// no more rounds than a won game is itself won.  With the configured five
/// rounds, zero to two lost rounds win the game for Good and three to five
/// lose it.
pub proof fn lemma_win_monotonic(l1: Seq<CarView>, l2: Seq<CarView>)
    requires
        lost_count(l1, ROUND_COUNT as int) <= lost_count(l2, ROUND_COUNT as int),
    ensures
        good_wins(l2) ==> good_wins(l1),
        good_wins(l1) <==> lost_count(l1, ROUND_COUNT as int) <= 2,
{
}

/// Runs one game on the given seating order: a nominating leader is drawn
/// at random, the configured rounds are played, and the verdict is read
/// off the completed ledger.
pub fn start_vote(players: Vec<Player>) -> (res: bool)
    requires
        setup_wf(player_views(players@)),
    ensures
        exists|first: int|
            0 <= first < PLAYER_COUNT && res == game_verdict(player_views(players@), first),
{
    let ghost ps = player_views(players@);
    let mut players = players;
    let first_car_leader = random_below(PLAYER_COUNT);
    let ledger = run_rounds(&mut players, first_car_leader);
    let res = check_game_res(ROUND_COUNT, ROUND_COUNT, &ledger);
    proof {
        let first = first_car_leader as int;
        assert(0 <= first < PLAYER_COUNT && res == game_verdict(ps, first));
    }
    res
}

/// Runs one complete game: a fresh shuffled roster, the configured rounds,
/// and the verdict, `true` when the Good faction wins.
pub fn start_game() -> (res: bool)
    ensures
        exists|ps: Seq<PlayerView>, first: int|
            {
                &&& setup_wf(ps)
                &&& ps.map_values(|p: PlayerView| p.role).to_multiset()
                    == standard_roster().to_multiset()
                &&& 0 <= first < PLAYER_COUNT
                &&& res == game_verdict(ps, first)
            },
{
    let players = init_players();
    let ghost ps = player_views(players@);
    let res = start_vote(players);
    proof {
        let first = choose|first: int|
            0 <= first < PLAYER_COUNT && res == game_verdict(ps, first);
        assert(setup_wf(ps) && 0 <= first < PLAYER_COUNT && res == game_verdict(ps, first));
    }
    res
}

} // verus!
