//! Rebuilds the history of a card collection from its current state and the
//! list of edits made to it, as a chain of point-in-time snapshots.
pub mod card;
pub mod migration;
pub mod revert;
pub mod forward;
pub mod snapshot;
pub mod output;
pub mod history;
pub mod local;
