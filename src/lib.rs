//! Decision logic of a discrete-tick proof-of-stake incentive simulation.
//!
//! Participants hold tokens and, each tick, a role: block producer, chunk-only
//! producer, or delegator to one of them. The library keeps the registry of
//! participants and decides everything about a tick that is not arithmetic on
//! token amounts: how each participant takes part in settlement, what the
//! population does (entry, split, merge), and the role auction. The amounts
//! themselves are data that the registry carries for its caller. A role ledger
//! rebuilds roles from the event stream, and the replay laws show that it
//! stays in step with the registry.

pub mod id;
pub mod role;
pub mod registry;
mod draw;
pub mod auction;
pub mod auction_laws;
pub mod dynamics;
pub mod settle;
pub mod events;
pub mod ledger;
pub mod replay;
