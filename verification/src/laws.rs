//! What the operations are for: laws over their inputs and results.
pub mod agents;
pub mod filling;
pub mod finding;
pub mod judging;
pub mod ledger;
pub mod listing;
pub mod messages;
pub mod numbers;
pub mod outcomes;
pub mod places;
pub mod probing;
pub mod replies;
pub mod running;
pub mod scanning;
pub mod sources;
pub mod text;
