//! A no-limit Texas Hold'em table engine: dealing, betting rounds, phase
//! advancement and showdown settlement with side pots, with every rule stated
//! as a contract and proved.

pub mod actions;
pub mod cards;
pub mod chips;
pub mod env;
pub mod invariants;
pub mod laws;
pub mod play;
pub mod pots;
pub mod protocol;
pub mod settlement;
pub mod showdown;
pub mod table;

pub use crate::actions::{Action, LegalAction, Phase, PokerError};
pub use crate::cards::{Card, HandRank};
pub use crate::env::{Observation, PokerEnv, Settlement};
pub use crate::play::Agent;
pub use crate::pots::Pot;
