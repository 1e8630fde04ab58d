//! A Monte Carlo simulator for an Avalon-style hidden-role team-selection
//! game: six role variants with fixed heuristic strategies play a five-round
//! game of team proposal, approval voting and mission voting, and the good
//! faction's verdict is computed from the round ledger.

pub mod info;
pub mod role;
pub mod game;
