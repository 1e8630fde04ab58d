//! Role variants and their decision heuristics.
//!
//! Six role variants fall into two behavioral families: the Good family
//! (`LoyalOfficial`, `Pai`, `Merlin`) keeps a per-player score table and
//! judges team proposals by it, while the Bad family (`Morgana`, `Pawn`,
//! `Assassin`) decides purely structurally (self-preservation and ally
//! protection) and keeps no state.  `Merlin` and `Morgana` override their
//! family's default proposal behavior.

use vstd::prelude::*;
use crate::info::{CarInfo, CarView, GameInfo};

verus! {

/// A mission-vote ballot cast by a finalized team member.
#[derive(Debug, PartialEq, Eq, Structural, Clone, Copy)]
pub enum Vote {
    Approve,
    Reject,
}

/// The camp a role *presents* when queried by other roles' decision logic.
/// `Unknown` hides the true alignment of Merlin and Morgana from simple
/// camp-equality checks.
#[derive(Debug, PartialEq, Eq, Structural, Clone, Copy)]
pub enum Camp {
    Good,
    Bad,
    Unknown,
}

/// Names the six role variants.
#[derive(Debug, PartialEq, Eq, Structural, Clone, Copy)]
pub enum Description {
    LoyalOfficial,
    Pai,
    Merlin,
    Morgana,
    Pawn,
    Assassin,
}

/// Mathematical model of one role instance: which variant it is and the
/// score table it carries (empty for the Bad family).
pub struct RoleView {
    pub descr: Description,
    pub scores: Seq<int>,
}

/// Mathematical model of a player: a stable identity and a role model.
pub struct PlayerView {
    pub id: int,
    pub role: RoleView,
}

/// The Good family: `LoyalOfficial`, `Pai` and `Merlin` share the score
/// heuristic and always approve missions.
pub open spec fn is_good_family(d: Description) -> bool {
    match d {
        Description::LoyalOfficial | Description::Pai | Description::Merlin => true,
        Description::Morgana | Description::Pawn | Description::Assassin => false,
    }
}

/// The camp a role presents to other roles.
pub open spec fn camp_of(d: Description) -> Camp {
    match d {
        Description::LoyalOfficial | Description::Pai => Camp::Good,
        Description::Merlin | Description::Morgana => Camp::Unknown,
        Description::Pawn | Description::Assassin => Camp::Bad,
    }
}

/// The ballot a role casts for the given round: the Good family always
/// approves; the Bad family approves on round 0 and rejects thereafter.
pub open spec fn vote_of(d: Description, round: int) -> Vote {
    if is_good_family(d) {
        Vote::Approve
    } else if round == 0 {
        Vote::Approve
    } else {
        Vote::Reject
    }
}

/// How many entries of `s` are strictly greater than `v`.
pub open spec fn count_gt(s: Seq<int>, v: int) -> int
    decreases s.len(),
{
    if s.len() == 0 {
        0
    } else {
        count_gt(s.drop_last(), v) + if s.last() > v { 1int } else { 0int }
    }
}

/// A team member's score is among the top `k` scores of the table exactly
/// when fewer than `k` scores strictly exceed it.
pub open spec fn score_in_top(scores: Seq<int>, v: int, k: int) -> bool {
    count_gt(scores, v) < k
}

/// The Good family's proposal rule: approve exactly when every proposed
/// member's score is among the top `k` scores of the table.
pub open spec fn good_approves(scores: Seq<int>, car: Seq<PlayerView>, k: int) -> bool {
    forall|j: int| 0 <= j < car.len() ==> score_in_top(scores, scores[car[j].id], k)
}

/// Whether the player with identity `id` sits on the team.
pub open spec fn car_has_id(car: Seq<PlayerView>, id: int) -> bool {
    exists|j: int| 0 <= j < car.len() && car[j].id == id
}

/// Whether some team member presents the `Bad` camp.
pub open spec fn car_has_bad_camp(car: Seq<PlayerView>) -> bool {
    exists|j: int| 0 <= j < car.len() && camp_of(car[j].role.descr) == Camp::Bad
}

/// Whether some team member truly belongs to the Bad family, whatever camp
/// it presents.  Only Merlin's full-knowledge check uses this.
pub open spec fn car_has_true_bad(car: Seq<PlayerView>) -> bool {
    exists|j: int| 0 <= j < car.len() && !is_good_family(car[j].role.descr)
}

/// The proposal-approval decision of a role for a candidate team, where `k`
/// is the round's configured team size.
pub open spec fn approves_car(rv: RoleView, id: int, car: Seq<PlayerView>, k: int) -> bool {
    match rv.descr {
        Description::LoyalOfficial | Description::Pai => good_approves(rv.scores, car, k),
        Description::Merlin => !car_has_true_bad(car),
        Description::Morgana => car_has_id(car, id) && !car_has_bad_camp(car),
        Description::Pawn | Description::Assassin => car_has_id(car, id) || car_has_bad_camp(car),
    }
}

/// A machine limit: score tables larger than this are not supported, so
/// that score arithmetic stays within `i32`.
pub const SCORE_TABLE_CAP: usize = 100000;

/// A machine limit: scores beyond this magnitude are not supported, so that
/// one more round of adjustments cannot overflow `i32`.
pub const SCORE_LIMIT: i32 = 100000000;

/// Every score lies within `[-b, b]`.
pub open spec fn scores_bounded(s: Seq<int>, b: int) -> bool {
    forall|i: int| 0 <= i < s.len() ==> -b <= #[trigger] s[i] <= b
}

/// The scores of a table, as mathematical integers.
pub open spec fn int_scores(s: Seq<i32>) -> Seq<int> {
    s.map_values(|x: i32| x as int)
}

/// The most recent round at or before `r` whose ledger entry records no
/// reject votes, if any.
pub open spec fn prior_success(l: Seq<CarView>, r: int) -> Option<int>
    decreases r + 1,
{
    if r < 0 {
        None
    } else if l[r].reject_count == 0 {
        Some(r)
    } else {
        prior_success(l, r - 1)
    }
}

/// The Good-heuristic score update for the just-resolved round `round`:
/// a succeeded mission rewards every team member with 10 points; a failed
/// one punishes newcomers relative to the most recent successful team with
/// 20 points and returning members with `5 * reject_count` points, or, when
/// no successful round exists yet, every player in the game with
/// `5 * reject_count` points.
pub open spec fn good_score_update(scores: Seq<int>, l: Seq<CarView>, round: int) -> Seq<int> {
    let team = l[round].car;
    let rc = l[round].reject_count;
    if rc == 0 {
        Seq::new(scores.len(), |i: int| if car_has_id(team, i) { scores[i] + 10 } else { scores[i] })
    } else {
        match prior_success(l, round - 1) {
            Some(p) => Seq::new(
                scores.len(),
                |i: int|
                    if car_has_id(team, i) {
                        if car_has_id(l[p].car, i) {
                            scores[i] - 5 * rc
                        } else {
                            scores[i] - 20
                        }
                    } else {
                        scores[i]
                    },
            ),
            None => Seq::new(scores.len(), |i: int| scores[i] - 5 * rc),
        }
    }
}

/// What a Good-family score update demands of its inputs: the resolved
/// round's entry has been written, the ledger is well formed for this score
/// table, and the table is within the machine limits.
pub open spec fn good_update_pre(scores: Seq<int>, l: Seq<CarView>, round: int) -> bool {
    &&& 0 <= round < l.len()
    &&& crate::info::ledger_wf(l, scores.len() as int)
    &&& scores.len() <= SCORE_TABLE_CAP
    &&& scores_bounded(scores, SCORE_LIMIT as int)
}

/// How a role's state changes when a round resolves: the Good family runs
/// the score heuristic, the Bad family keeps no state.
pub open spec fn role_after_vote(rv: RoleView, l: Seq<CarView>, round: int) -> RoleView {
    if is_good_family(rv.descr) {
        RoleView { descr: rv.descr, scores: good_score_update(rv.scores, l, round) }
    } else {
        rv
    }
}

/// What a role's round resolution demands of its inputs.
pub open spec fn update_pre(rv: RoleView, l: Seq<CarView>, round: int) -> bool {
    is_good_family(rv.descr) ==> good_update_pre(rv.scores, l, round)
}

/// What a role's proposal decision demands of its inputs: only the default
/// Good-family rule reads the score table, so only it needs the proposed
/// identities to index into it.
pub open spec fn propose_pre(rv: RoleView, cv: CarView) -> bool {
    (rv.descr == Description::LoyalOfficial || rv.descr == Description::Pai) ==> {
        &&& cv.car_size <= rv.scores.len()
        &&& forall|j: int| 0 <= j < cv.car.len() ==> 0 <= (#[trigger] cv.car[j]).id < rv.scores.len()
    }
}

/// No two team members share an identity.
pub open spec fn car_distinct(car: Seq<PlayerView>) -> bool {
    forall|a: int, b: int| 0 <= a < b < car.len() ==> car[a].id != car[b].id
}

/// The models of a sequence of players.
pub open spec fn player_views(s: Seq<Player>) -> Seq<PlayerView> {
    Seq::new(s.len(), |i: int| s[i]@)
}

/// The shared state and heuristics of the Good family: a score table with
/// one entry per player, initialized to zero and adjusted after every round.
pub struct GoodRoleImpl {
    /// The desirability score this role currently assigns to each player.
    pub score: Vec<i32>,
}

impl View for GoodRoleImpl {
    type V = Seq<int>;

    open spec fn view(&self) -> Seq<int> {
        self.score@.map_values(|x: i32| x as int)
    }
}

/// The stateless shared heuristics of the Bad family.
pub struct BadRoleImpl {}

/// A Good-family role with the default family behavior.
pub struct LoyalOfficial {
    pub proxy: GoodRoleImpl,
}

/// A Good-family role identical in behavior to `LoyalOfficial`.
pub struct Pai {
    pub proxy: GoodRoleImpl,
}

/// The Good-family role that knows every player's true alignment and vetoes
/// any team carrying a Bad-family member; presents the `Unknown` camp.
pub struct Merlin {
    pub proxy: GoodRoleImpl,
}

/// The Bad-family role that stays hidden: it presents the `Unknown` camp and
/// only backs teams that carry itself and no openly Bad member.
pub struct Morgana {
    pub proxy: BadRoleImpl,
}

/// A Bad-family role with the default family behavior.
pub struct Pawn {
    pub proxy: BadRoleImpl,
}

/// A Bad-family role with the default family behavior.
pub struct Assassin {
    pub proxy: BadRoleImpl,
}

/// The role bound to a player, as one closed set of variants.
pub enum RoleImpl {
    LoyalOfficial(LoyalOfficial),
    Pai(Pai),
    Merlin(Merlin),
    Morgana(Morgana),
    Pawn(Pawn),
    Assassin(Assassin),
}

impl View for RoleImpl {
    type V = RoleView;

    open spec fn view(&self) -> RoleView {
        match self {
            RoleImpl::LoyalOfficial(r) => RoleView {
                descr: Description::LoyalOfficial,
                scores: r.proxy@,
            },
            RoleImpl::Pai(r) => RoleView { descr: Description::Pai, scores: r.proxy@ },
            RoleImpl::Merlin(r) => RoleView { descr: Description::Merlin, scores: r.proxy@ },
            RoleImpl::Morgana(_) => RoleView { descr: Description::Morgana, scores: Seq::empty() },
            RoleImpl::Pawn(_) => RoleView { descr: Description::Pawn, scores: Seq::empty() },
            RoleImpl::Assassin(_) => RoleView {
                descr: Description::Assassin,
                scores: Seq::empty(),
            },
        }
    }
}

/// A stable identity bound to a role instance for the lifetime of one game.
pub struct Player {
    /// The player's index in the game's seating order.
    pub id: u32,
    /// The strategy this player follows.
    pub role: RoleImpl,
}

impl View for Player {
    type V = PlayerView;

    open spec fn view(&self) -> PlayerView {
        PlayerView { id: self.id as int, role: self.role@ }
    }
}

impl Player {
    pub fn new(id: u32, role: RoleImpl) -> (p: Self)
        ensures
            p@ == (PlayerView { id: id as int, role: role@ }),
    {
        Self { id, role }
    }
}

/// Whether the player with identity `id` sits on the team.
pub fn car_contains_id(car: &Vec<Player>, id: u32) -> (r: bool)
    ensures
        r == car_has_id(player_views(car@), id as int),
{
    let n = car.len();
    let mut j: usize = 0;
    while j < n
        invariant
            j <= n,
            n == car@.len(),
            forall|k: int| 0 <= k < j ==> (#[trigger] player_views(car@)[k]).id != id as int,
        decreases n - j,
    {
        if car[j].id == id {
            proof {
                assert(player_views(car@)[j as int].id == id as int);
            }
            return true;
        }
        j = j + 1;
    }
    false
}

/// Whether some team member presents the `Bad` camp.
pub fn car_contains_bad_camp(car: &Vec<Player>) -> (r: bool)
    ensures
        r == car_has_bad_camp(player_views(car@)),
{
    let n = car.len();
    let mut j: usize = 0;
    while j < n
        invariant
            j <= n,
            n == car@.len(),
            forall|k: int| 0 <= k < j
                ==> camp_of((#[trigger] player_views(car@)[k]).role.descr) != Camp::Bad,
        decreases n - j,
    {
        let is_bad = match &car[j].role {
            RoleImpl::Pawn(_) => true,
            RoleImpl::Assassin(_) => true,
            _ => false,
        };
        if is_bad {
            proof {
                assert(camp_of(player_views(car@)[j as int].role.descr) == Camp::Bad);
            }
            return true;
        }
        proof {
            assert(camp_of(player_views(car@)[j as int].role.descr) != Camp::Bad);
        }
        j = j + 1;
    }
    false
}

/// Whether some team member truly belongs to the Bad family, whatever camp
/// it presents.
pub fn car_contains_true_bad(car: &Vec<Player>) -> (r: bool)
    ensures
        r == car_has_true_bad(player_views(car@)),
{
    let n = car.len();
    let mut j: usize = 0;
    while j < n
        invariant
            j <= n,
            n == car@.len(),
            forall|k: int| 0 <= k < j
                ==> is_good_family((#[trigger] player_views(car@)[k]).role.descr),
        decreases n - j,
    {
        let is_bad = match &car[j].role {
            RoleImpl::Morgana(_) => true,
            RoleImpl::Pawn(_) => true,
            RoleImpl::Assassin(_) => true,
            _ => false,
        };
        if is_bad {
            proof {
                assert(!is_good_family(player_views(car@)[j as int].role.descr));
            }
            return true;
        }
        proof {
            assert(is_good_family(player_views(car@)[j as int].role.descr));
        }
        j = j + 1;
    }
    false
}

/// How many scores of the table strictly exceed `v`.
pub fn count_greater(score: &Vec<i32>, v: i32) -> (c: usize)
    ensures
        c as int == count_gt(int_scores(score@), v as int),
        c <= score@.len(),
{
    let n = score.len();
    let mut count: usize = 0;
    let mut i: usize = 0;
    while i < n
        invariant
            i <= n,
            n == score@.len(),
            count <= i,
            count as int == count_gt(int_scores(score@).take(i as int), v as int),
        decreases n - i,
    {
        proof {
            assert(int_scores(score@).take(i + 1).drop_last() =~= int_scores(score@).take(
                i as int,
            ));
            assert(int_scores(score@).take(i + 1).last() == score@[i as int] as int);
        }
        if score[i] > v {
            count = count + 1;
        }
        i = i + 1;
    }
    proof {
        assert(int_scores(score@).take(n as int) =~= int_scores(score@));
    }
    count
}

impl GoodRoleImpl {
    pub fn new(score: Vec<i32>) -> (r: Self)
        ensures
            r@ == int_scores(score@),
    {
        Self { score }
    }

    /// The default Good-family proposal rule: approve exactly when every
    /// proposed member's score is among the top `car_size` scores.
    pub fn proposal_for_car(&self, _id: u32, car_info: &CarInfo) -> (r: bool)
        requires
            car_info@.car_size <= self@.len(),
            forall|j: int| 0 <= j < car_info@.car.len()
                ==> 0 <= (#[trigger] car_info@.car[j]).id < self@.len(),
        ensures
            r == good_approves(self@, car_info@.car, car_info@.car_size),
    {
        let k = car_info.car_size;
        let n = car_info.car.len();
        let mut j: usize = 0;
        while j < n
            invariant
                j <= n,
                n == car_info@.car.len(),
                k == car_info@.car_size,
                k <= self@.len(),
                self@ == int_scores(self.score@),
                forall|j2: int| 0 <= j2 < car_info@.car.len()
                    ==> 0 <= (#[trigger] car_info@.car[j2]).id < self@.len(),
                forall|t: int| 0 <= t < j
                    ==> score_in_top(self@, self@[(#[trigger] car_info@.car[t]).id], k as int),
            decreases n - j,
    {
            proof {
                assert(car_info@.car[j as int] == car_info.car@[j as int]@);
            }
            let pid = car_info.car[j].id as usize;
            let c = count_greater(&self.score, self.score[pid]);
            proof {
                assert(self@[pid as int] == self.score@[pid as int] as int);
            }
            if c >= k {
                proof {
                    assert(!score_in_top(self@, self@[car_info@.car[j as int].id], k as int));
                }
                return false;
            }
            j = j + 1;
        }
        true
    }

    /// The Good family always approves the mission vote.
    pub fn vote_with_round(&self, _round: usize) -> (v: Vote)
        ensures
            v == Vote::Approve,
    {
        Vote::Approve
    }

    pub fn get_role_camp(&self) -> (c: Camp)
        ensures
            c == Camp::Good,
    {
        Camp::Good
    }
}

/// Extending a team prefix by one member adds exactly that member's
/// identity to the identities the prefix holds.
proof fn lemma_car_has_id_take_step(car: Seq<PlayerView>, j: int, i: int)
    requires
        0 <= j < car.len(),
    ensures
        car_has_id(car.take(j + 1), i) <==> (car_has_id(car.take(j), i) || car[j].id == i),
{
    if car_has_id(car.take(j + 1), i) {
        let t = choose|t: int| 0 <= t < j + 1 && (#[trigger] car.take(j + 1)[t]).id == i;
        if t < j {
            assert(car.take(j)[t].id == i);
        } else {
            assert(car.take(j + 1)[j] == car[j]);
        }
    }
    if car_has_id(car.take(j), i) {
        let t = choose|t: int| 0 <= t < j && (#[trigger] car.take(j)[t]).id == i;
        assert(car.take(j + 1)[t].id == i);
    }
    if car[j].id == i {
        assert(car.take(j + 1)[j].id == i);
    }
}

/// On a team without duplicate identities, a member's identity does not
/// occur before its own position.
proof fn lemma_distinct_not_in_prefix(car: Seq<PlayerView>, j: int)
    requires
        car_distinct(car),
        0 <= j < car.len(),
    ensures
        !car_has_id(car.take(j), car[j].id),
{
    if car_has_id(car.take(j), car[j].id) {
        let t = choose|t: int| 0 <= t < j && (#[trigger] car.take(j)[t]).id == car[j].id;
        assert(car[t].id == car[j].id);
    }
}

impl GoodRoleImpl {
    /// The Good-heuristic update for the just-resolved round: reward a
    /// unanimous success, punish the newcomers on a failed follow-up, and
    /// diffusely suspect everyone when no successful round exists yet.
    pub fn update_after_vote(&mut self, round: usize, ledger: &GameInfo)
        requires
            good_update_pre(old(self)@, ledger@, round as int),
        ensures
            final(self)@ == good_score_update(old(self)@, ledger@, round as int),
    {
        let ghost l = ledger@;
        let ghost n = old(self)@.len() as int;
        proof {
            assert(l[round as int] == ledger.cars@[round as int]@);
            assert(crate::info::car_wf(l[round as int], n));
        }
        let entry = &ledger.cars[round];
        let rc = entry.reject_count;
        let ghost team = l[round as int].car;
        proof {
            assert(team == player_views(entry.car@));
            assert(l[round as int].reject_count == rc as int);
        }
        if rc == 0 {
            let m = entry.car.len();
            let mut j: usize = 0;
            while j < m
                invariant
                    j <= m,
                    m == team.len(),
                    team == player_views(entry.car@),
                    car_distinct(team),
                    forall|t: int| 0 <= t < team.len() ==> 0 <= (#[trigger] team[t]).id < n,
                    n == old(self)@.len(),
                    self@.len() == n,
                    self@ == int_scores(self.score@),
                    scores_bounded(old(self)@, SCORE_LIMIT as int),
                    forall|i: int| 0 <= i < n ==> #[trigger] self@[i] == (if car_has_id(
                        team.take(j as int),
                        i,
                    ) {
                        old(self)@[i] + 10
                    } else {
                        old(self)@[i]
                    }),
                decreases m - j,
            {
                let ghost before = self@;
                proof {
                    assert(team[j as int] == entry.car@[j as int]@);
                    lemma_distinct_not_in_prefix(team, j as int);
                }
                let id = entry.car[j].id as usize;
                proof {
                    assert(self.score@[id as int] as int == self@[id as int]);
                    assert(self@[id as int] == old(self)@[id as int]);
                }
                self.score[id] = self.score[id] + 10;
                j = j + 1;
                proof {
                    assert(self@ =~= before.update(id as int, before[id as int] + 10));
                    assert forall|i: int| 0 <= i < n implies #[trigger] self@[i] == (if car_has_id(
                        team.take(j as int),
                        i,
                    ) {
                        old(self)@[i] + 10
                    } else {
                        old(self)@[i]
                    }) by {
                        lemma_car_has_id_take_step(team, j as int - 1, i);
                        assert(before[i] == (if car_has_id(team.take(j as int - 1), i) {
                            old(self)@[i] + 10
                        } else {
                            old(self)@[i]
                        }));
                    }
                }
            }
            proof {
                assert(team.take(m as int) =~= team);
                assert(self@ =~= good_score_update(old(self)@, l, round as int));
            }
        } else {
            // Search backward for the most recent prior successful round.
            let mut r = round;
            let mut found = false;
            let mut prev: usize = 0;
            while !found && r > 0
                invariant
                    r <= round,
                    round < l.len(),
                    l == ledger@,
                    l.len() == ledger.cars@.len(),
                    found ==> prior_success(l, round as int - 1) == Some(prev as int),
                    found ==> prev < round,
                    !found ==> prior_success(l, round as int - 1) == prior_success(
                        l,
                        r as int - 1,
                    ),
                decreases r + if found { 0int } else { 1int },
            {
                r = r - 1;
                proof {
                    assert(l[r as int] == ledger.cars@[r as int]@);
                }
                if ledger.cars[r].reject_count == 0 {
                    found = true;
                    prev = r;
                }
            }
            if found {
                let ghost p = prev as int;
                let ghost pcv = l[p].car;
                proof {
                    assert(pcv == player_views(ledger.cars@[p].car@));
                }
                let m = entry.car.len();
                let mut j: usize = 0;
                while j < m
                    invariant
                        j <= m,
                        m == team.len(),
                        team == player_views(entry.car@),
                        car_distinct(team),
                        forall|t: int| 0 <= t < team.len() ==> 0 <= (#[trigger] team[t]).id < n,
                        n == old(self)@.len(),
                        self@.len() == n,
                        self@ == int_scores(self.score@),
                        scores_bounded(old(self)@, SCORE_LIMIT as int),
                        1 <= rc as int <= team.len(),
                        team.len() <= n <= SCORE_TABLE_CAP,
                        prev < round < l.len(),
                        p == prev as int,
                        pcv == l[p].car,
                        pcv == player_views(ledger.cars@[p].car@),
                        l == ledger@,
                        l.len() == ledger.cars@.len(),
                        forall|i: int| 0 <= i < n ==> #[trigger] self@[i] == (if car_has_id(
                            team.take(j as int),
                            i,
                        ) {
                            if car_has_id(pcv, i) {
                                old(self)@[i] - 5 * rc as int
                            } else {
                                old(self)@[i] - 20
                            }
                        } else {
                            old(self)@[i]
                        }),
                    decreases m - j,
                {
                    let ghost before = self@;
                    proof {
                        assert(team[j as int] == entry.car@[j as int]@);
                        lemma_distinct_not_in_prefix(team, j as int);
                    }
                    let id = entry.car[j].id as usize;
                    let on_prev = car_contains_id(&ledger.cars[prev].car, entry.car[j].id);
                    let delta: i32 = if on_prev {
                        5 * (rc as i32)
                    } else {
                        20
                    };
                    proof {
                        assert(on_prev == car_has_id(pcv, id as int));
                        assert(0 < delta <= 5 * SCORE_TABLE_CAP as i32);
                        assert(self.score@[id as int] as int == self@[id as int]);
                        assert(self@[id as int] == old(self)@[id as int]);
                    }
                    self.score[id] = self.score[id] - delta;
                    j = j + 1;
                    proof {
                        assert(self@ =~= before.update(
                            id as int,
                            before[id as int] - delta as int,
                        ));
                        assert forall|i: int| 0 <= i < n implies #[trigger] self@[i] == (if car_has_id(
                            team.take(j as int),
                            i,
                        ) {
                            if car_has_id(pcv, i) {
                                old(self)@[i] - 5 * rc as int
                            } else {
                                old(self)@[i] - 20
                            }
                        } else {
                            old(self)@[i]
                        }) by {
                            lemma_car_has_id_take_step(team, j as int - 1, i);
                            assert(before[i] == (if car_has_id(team.take(j as int - 1), i) {
                                if car_has_id(pcv, i) {
                                    old(self)@[i] - 5 * rc as int
                                } else {
                                    old(self)@[i] - 20
                                }
                            } else {
                                old(self)@[i]
                            }));
                        }
                    }
                }
                proof {
                    assert(team.take(m as int) =~= team);
                    assert(self@ =~= good_score_update(old(self)@, l, round as int));
                }
            } else {
                let d: i32 = 5 * (rc as i32);
                proof {
                    assert(1 <= rc as int <= team.len());
                    assert(team.len() <= n <= SCORE_TABLE_CAP);
                }
                let len = self.score.len();
                let mut i: usize = 0;
                while i < len
                    invariant
                        i <= len,
                        len == n,
                        n == old(self)@.len(),
                        self@.len() == n,
                        self@ == int_scores(self.score@),
                        scores_bounded(old(self)@, SCORE_LIMIT as int),
                        d as int == 5 * rc as int,
                        d <= 5 * SCORE_TABLE_CAP as i32,
                        forall|t: int| 0 <= t < i ==> #[trigger] self@[t] == old(self)@[t] - 5
                            * rc as int,
                        forall|t: int| i <= t < n ==> #[trigger] self@[t] == old(self)@[t],
                    decreases len - i,
                {
                    let ghost before = self@;
                    proof {
                        assert(self.score@[i as int] as int == self@[i as int]);
                        assert(self@[i as int] == old(self)@[i as int]);
                    }
                    self.score[i] = self.score[i] - d;
                    proof {
                        assert(self@ =~= before.update(i as int, before[i as int] - d as int));
                    }
                    i = i + 1;
                }
                proof {
                    assert(self@ =~= good_score_update(old(self)@, l, round as int));
                }
            }
        }
    }
}

impl BadRoleImpl {
    /// The default Bad-family proposal rule: approve exactly when the team
    /// carries the role itself or any openly Bad member.
    pub fn proposal_for_car(&self, id: u32, car_info: &CarInfo) -> (r: bool)
        ensures
            r == (car_has_id(car_info@.car, id as int) || car_has_bad_camp(car_info@.car)),
    {
        car_contains_id(&car_info.car, id) || car_contains_bad_camp(&car_info.car)
    }

    /// The Bad family approves the first round's mission and rejects every
    /// later one.
    pub fn vote_with_round(&self, round: usize) -> (v: Vote)
        ensures
            v == (if round == 0 {
                Vote::Approve
            } else {
                Vote::Reject
            }),
    {
        if round == 0 {
            Vote::Approve
        } else {
            Vote::Reject
        }
    }

    /// The Bad family keeps no state to update.
    pub fn update_after_vote(&mut self, _round: usize, _ledger: &GameInfo) {
    }

    pub fn get_role_camp(&self) -> (c: Camp)
        ensures
            c == Camp::Bad,
    {
        Camp::Bad
    }
}

/// A score table of `size` zeroes, as every Good-family role starts with.
pub open spec fn zero_scores(size: int) -> Seq<int> {
    Seq::new(size as nat, |i: int| 0int)
}

/// The capability set every role variant offers: judge a proposed team,
/// cast a mission ballot, learn of a resolved round, and present a camp.
pub trait Role: Sized {
    /// The mathematical model of this role's variant and state.
    spec fn role_view(&self) -> RoleView;

    /// Whether this role, playing as `id`, backs the proposed team.
    fn proposal_for_car(&self, id: u32, car_info: &CarInfo) -> (r: bool)
        requires
            propose_pre(self.role_view(), car_info@),
        ensures
            r == approves_car(
                self.role_view(),
                id as int,
                car_info@.car,
                car_info@.car_size,
            ),
    ;

    /// The ballot this role casts in the given round's mission vote.
    fn vote_with_round(&self, round: usize) -> (v: Vote)
        ensures
            v == vote_of(self.role_view().descr, round as int),
    ;

    /// Lets the role react to the resolved round `round`, whose ledger
    /// entry has already been written.
    fn update_after_vote(&mut self, round: usize, ledger: &GameInfo)
        requires
            update_pre(old(self).role_view(), ledger@, round as int),
        ensures
            final(self).role_view() == role_after_vote(
                old(self).role_view(),
                ledger@,
                round as int,
            ),
    ;

    /// The camp this role presents when queried.
    fn get_role_camp(&self) -> (c: Camp)
        ensures
            c == camp_of(self.role_view().descr),
    ;
}

impl LoyalOfficial {
    /// A fresh instance for a game of `size` players, all scores zero.
    pub fn default(size: usize) -> (r: Self)
        ensures
            r.role_view() == (RoleView {
                descr: Description::LoyalOfficial,
                scores: zero_scores(size as int),
            }),
    {
        let score: Vec<i32> = vec![0i32; size];
        proof {
            assert(int_scores(score@) =~= zero_scores(size as int));
        }
        Self { proxy: GoodRoleImpl::new(score) }
    }
}

impl Role for LoyalOfficial {
    open spec fn role_view(&self) -> RoleView {
        RoleView { descr: Description::LoyalOfficial, scores: self.proxy@ }
    }

    fn proposal_for_car(&self, id: u32, car_info: &CarInfo) -> (r: bool) {
        self.proxy.proposal_for_car(id, car_info)
    }

    fn vote_with_round(&self, round: usize) -> (v: Vote) {
        self.proxy.vote_with_round(round)
    }

    fn update_after_vote(&mut self, round: usize, ledger: &GameInfo) {
        self.proxy.update_after_vote(round, ledger)
    }

    fn get_role_camp(&self) -> (c: Camp) {
        self.proxy.get_role_camp()
    }
}

impl Pai {
    /// A fresh instance for a game of `size` players, all scores zero.
    pub fn default(size: usize) -> (r: Self)
        ensures
            r.role_view() == (RoleView {
                descr: Description::Pai,
                scores: zero_scores(size as int),
            }),
    {
        let score: Vec<i32> = vec![0i32; size];
        proof {
            assert(int_scores(score@) =~= zero_scores(size as int));
        }
        Self { proxy: GoodRoleImpl::new(score) }
    }
}

impl Role for Pai {
    open spec fn role_view(&self) -> RoleView {
        RoleView { descr: Description::Pai, scores: self.proxy@ }
    }

    fn proposal_for_car(&self, id: u32, car_info: &CarInfo) -> (r: bool) {
        self.proxy.proposal_for_car(id, car_info)
    }

    fn vote_with_round(&self, round: usize) -> (v: Vote) {
        self.proxy.vote_with_round(round)
    }

    fn update_after_vote(&mut self, round: usize, ledger: &GameInfo) {
        self.proxy.update_after_vote(round, ledger)
    }

    fn get_role_camp(&self) -> (c: Camp) {
        self.proxy.get_role_camp()
    }
}

impl Merlin {
    /// A fresh instance for a game of `size` players, all scores zero.
    pub fn default(size: usize) -> (r: Self)
        ensures
            r.role_view() == (RoleView {
                descr: Description::Merlin,
                scores: zero_scores(size as int),
            }),
    {
        let score: Vec<i32> = vec![0i32; size];
        proof {
            assert(int_scores(score@) =~= zero_scores(size as int));
        }
        Self { proxy: GoodRoleImpl::new(score) }
    }
}

impl Role for Merlin {
    open spec fn role_view(&self) -> RoleView {
        RoleView { descr: Description::Merlin, scores: self.proxy@ }
    }

    /// Merlin knows every player's true alignment and vetoes any team
    /// carrying a Bad-family member, bypassing the presented camps.
    fn proposal_for_car(&self, _id: u32, car_info: &CarInfo) -> (r: bool) {
        !car_contains_true_bad(&car_info.car)
    }

    fn vote_with_round(&self, round: usize) -> (v: Vote) {
        self.proxy.vote_with_round(round)
    }

    fn update_after_vote(&mut self, round: usize, ledger: &GameInfo) {
        self.proxy.update_after_vote(round, ledger)
    }

    fn get_role_camp(&self) -> (c: Camp) {
        Camp::Unknown
    }
}

impl Morgana {
    /// A fresh instance; the Bad family carries no state.
    pub fn default() -> (r: Self)
        ensures
            r.role_view() == (RoleView {
                descr: Description::Morgana,
                scores: Seq::empty(),
            }),
    {
        Self { proxy: BadRoleImpl {  } }
    }
}

impl Role for Morgana {
    open spec fn role_view(&self) -> RoleView {
        RoleView { descr: Description::Morgana, scores: Seq::empty() }
    }

    /// Morgana stays hidden: she backs a team only when she sits on it and
    /// no openly Bad ally sits beside her.
    fn proposal_for_car(&self, id: u32, car_info: &CarInfo) -> (r: bool) {
        car_contains_id(&car_info.car, id) && !car_contains_bad_camp(&car_info.car)
    }

    fn vote_with_round(&self, round: usize) -> (v: Vote) {
        self.proxy.vote_with_round(round)
    }

    fn update_after_vote(&mut self, _round: usize, _ledger: &GameInfo) {
    }

    fn get_role_camp(&self) -> (c: Camp) {
        Camp::Unknown
    }
}

impl Pawn {
    /// A fresh instance; the Bad family carries no state.
    pub fn default() -> (r: Self)
        ensures
            r.role_view() == (RoleView { descr: Description::Pawn, scores: Seq::empty() }),
    {
        Self { proxy: BadRoleImpl {  } }
    }
}

impl Role for Pawn {
    open spec fn role_view(&self) -> RoleView {
        RoleView { descr: Description::Pawn, scores: Seq::empty() }
    }

    fn proposal_for_car(&self, id: u32, car_info: &CarInfo) -> (r: bool) {
        self.proxy.proposal_for_car(id, car_info)
    }

    fn vote_with_round(&self, round: usize) -> (v: Vote) {
        self.proxy.vote_with_round(round)
    }

    fn update_after_vote(&mut self, _round: usize, _ledger: &GameInfo) {
    }

    fn get_role_camp(&self) -> (c: Camp) {
        self.proxy.get_role_camp()
    }
}

impl Assassin {
    /// A fresh instance; the Bad family carries no state.
    pub fn default() -> (r: Self)
        ensures
            r.role_view() == (RoleView {
                descr: Description::Assassin,
                scores: Seq::empty(),
            }),
    {
        Self { proxy: BadRoleImpl {  } }
    }
}

impl Role for Assassin {
    open spec fn role_view(&self) -> RoleView {
        RoleView { descr: Description::Assassin, scores: Seq::empty() }
    }

    fn proposal_for_car(&self, id: u32, car_info: &CarInfo) -> (r: bool) {
        self.proxy.proposal_for_car(id, car_info)
    }

    fn vote_with_round(&self, round: usize) -> (v: Vote) {
        self.proxy.vote_with_round(round)
    }

    fn update_after_vote(&mut self, _round: usize, _ledger: &GameInfo) {
    }

    fn get_role_camp(&self) -> (c: Camp) {
        self.proxy.get_role_camp()
    }
}

impl RoleImpl {
    /// Dispatches the proposal decision to the bound variant.
    pub fn proposal_for_car(&self, id: u32, car_info: &CarInfo) -> (r: bool)
        requires
            propose_pre(self@, car_info@),
        ensures
            r == approves_car(self@, id as int, car_info@.car, car_info@.car_size),
    {
        match self {
            RoleImpl::LoyalOfficial(x) => x.proposal_for_car(id, car_info),
            RoleImpl::Pai(x) => x.proposal_for_car(id, car_info),
            RoleImpl::Merlin(x) => x.proposal_for_car(id, car_info),
            RoleImpl::Morgana(x) => x.proposal_for_car(id, car_info),
            RoleImpl::Pawn(x) => x.proposal_for_car(id, car_info),
            RoleImpl::Assassin(x) => x.proposal_for_car(id, car_info),
        }
    }

    /// Dispatches the mission ballot to the bound variant.
    pub fn vote_with_round(&self, round: usize) -> (v: Vote)
        ensures
            v == vote_of(self@.descr, round as int),
    {
        match self {
            RoleImpl::LoyalOfficial(x) => x.vote_with_round(round),
            RoleImpl::Pai(x) => x.vote_with_round(round),
            RoleImpl::Merlin(x) => x.vote_with_round(round),
            RoleImpl::Morgana(x) => x.vote_with_round(round),
            RoleImpl::Pawn(x) => x.vote_with_round(round),
            RoleImpl::Assassin(x) => x.vote_with_round(round),
        }
    }

    /// Dispatches the round resolution to the bound variant.
    pub fn update_after_vote(&mut self, round: usize, ledger: &GameInfo)
        requires
            update_pre(old(self)@, ledger@, round as int),
        ensures
            final(self)@ == role_after_vote(old(self)@, ledger@, round as int),
    {
        match self {
            RoleImpl::LoyalOfficial(x) => x.update_after_vote(round, ledger),
            RoleImpl::Pai(x) => x.update_after_vote(round, ledger),
            RoleImpl::Merlin(x) => x.update_after_vote(round, ledger),
            RoleImpl::Morgana(x) => x.update_after_vote(round, ledger),
            RoleImpl::Pawn(x) => x.update_after_vote(round, ledger),
            RoleImpl::Assassin(x) => x.update_after_vote(round, ledger),
        }
    }

    /// Dispatches the camp query to the bound variant.
    pub fn get_role_camp(&self) -> (c: Camp)
        ensures
            c == camp_of(self@.descr),
    {
        match self {
            RoleImpl::LoyalOfficial(x) => x.get_role_camp(),
            RoleImpl::Pai(x) => x.get_role_camp(),
            RoleImpl::Merlin(x) => x.get_role_camp(),
            RoleImpl::Morgana(x) => x.get_role_camp(),
            RoleImpl::Pawn(x) => x.get_role_camp(),
            RoleImpl::Assassin(x) => x.get_role_camp(),
        }
    }
}

impl Clone for GoodRoleImpl {
    fn clone(&self) -> (r: Self)
        ensures
            r@ == self@,
    {
        let score = self.score.clone();
        proof {
            assert(int_scores(score@) =~= int_scores(self.score@));
        }
        Self { score }
    }
}

impl Clone for RoleImpl {
    fn clone(&self) -> (r: Self)
        ensures
            r@ == self@,
    {
        match self {
            RoleImpl::LoyalOfficial(x) => RoleImpl::LoyalOfficial(
                LoyalOfficial { proxy: x.proxy.clone() },
            ),
            RoleImpl::Pai(x) => RoleImpl::Pai(Pai { proxy: x.proxy.clone() }),
            RoleImpl::Merlin(x) => RoleImpl::Merlin(Merlin { proxy: x.proxy.clone() }),
            RoleImpl::Morgana(_) => RoleImpl::Morgana(Morgana { proxy: BadRoleImpl {  } }),
            RoleImpl::Pawn(_) => RoleImpl::Pawn(Pawn { proxy: BadRoleImpl {  } }),
            RoleImpl::Assassin(_) => RoleImpl::Assassin(Assassin { proxy: BadRoleImpl {  } }),
        }
    }
}

impl Clone for Player {
    fn clone(&self) -> (r: Self)
        ensures
            r@ == self@,
    {
        Player { id: self.id, role: self.role.clone() }
    }
}

} // verus!
