//! A peer-to-peer gossip node: the per-peer membership and suspicion state, and
//! the state machine that folds inbound messages and scheduled triggers into
//! state changes and outbound messages.
pub mod address;
pub mod laws;
pub mod neighborhood;
pub mod neighbourhood;
pub mod node;
