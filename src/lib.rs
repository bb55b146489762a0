//! Membership, event and query coordination for a gossip cluster: Lamport
//! clocks, the wire message tags, the join/leave intent state machine, the
//! user event buffer, the query de-duplication ring, the push/pull state
//! exchange and the snapshot journal, each with its contract.
use vstd::prelude::*;

pub mod clock;
pub mod error;
pub mod message;
pub mod table;
pub mod membership;
pub mod events;
pub mod queries;
pub mod serf;
pub mod delegate;
pub mod snapshot;

verus! {

} // verus!
