//! The round ledger: per-round records of the finalized team and the number
//! of reject votes it received, appended exactly once per round by the
//! mission vote phase and read by every role's score update.

use vstd::prelude::*;
use crate::role::{Player, PlayerView, player_views, car_distinct};

verus! {

/// Mathematical model of one ledger entry.
pub struct CarView {
    pub round: int,
    pub car: Seq<PlayerView>,
    pub car_size: int,
    pub reject_count: int,
}

/// One finalized round: the team that ran the mission and how many of its
/// members voted `Reject`.
pub struct CarInfo {
    /// The round this entry records.
    pub round: usize,
    /// The finalized team, in nomination order.
    pub car: Vec<Player>,
    /// The round's configured team size; always equals `car.len()`.
    pub car_size: usize,
    /// The number of `Reject` ballots cast by the team's members.
    pub reject_count: usize,
}

impl View for CarInfo {
    type V = CarView;

    open spec fn view(&self) -> CarView {
        CarView {
            round: self.round as int,
            car: player_views(self.car@),
            car_size: self.car_size as int,
            reject_count: self.reject_count as int,
        }
    }
}

impl CarInfo {
    pub fn new(round: usize, car: Vec<Player>, car_size: usize, reject_count: usize) -> (r: Self)
        ensures
            r@ == (CarView {
                round: round as int,
                car: player_views(car@),
                car_size: car_size as int,
                reject_count: reject_count as int,
            }),
    {
        Self { round, car, car_size, reject_count }
    }
}

/// A well-formed ledger entry for a game of `n` players: the recorded team
/// size matches the team, no more rejects than members, no duplicate
/// identities, and every identity is a valid player index.
pub open spec fn car_wf(c: CarView, n: int) -> bool {
    &&& c.car.len() == c.car_size
    &&& c.car.len() <= n
    &&& 0 <= c.reject_count <= c.car.len()
    &&& car_distinct(c.car)
    &&& forall|j: int| 0 <= j < c.car.len() ==> 0 <= (#[trigger] c.car[j]).id < n
}

/// Every entry of the ledger is well formed for a game of `n` players.
pub open spec fn ledger_wf(l: Seq<CarView>, n: int) -> bool {
    forall|r: int| 0 <= r < l.len() ==> car_wf(#[trigger] l[r], n)
}

/// The append-only round ledger, indexed by round number.
pub struct GameInfo {
    /// The finalized rounds, entry `r` describing round `r`.
    pub cars: Vec<CarInfo>,
}

impl View for GameInfo {
    type V = Seq<CarView>;

    open spec fn view(&self) -> Seq<CarView> {
        Seq::new(self.cars@.len(), |i: int| self.cars@[i]@)
    }
}

impl GameInfo {
    /// An empty ledger, as a game starts with.
    pub fn default() -> (r: Self)
        ensures
            r@ == Seq::<CarView>::empty(),
    {
        let cars: Vec<CarInfo> = Vec::new();
        let r = Self { cars };
        proof {
            assert(r@ =~= Seq::<CarView>::empty());
        }
        r
    }
}

} // verus!
