//! Errors of the library.
use vstd::prelude::*;

verus! {

/// Lifecycle state of a node.
#[derive(Debug, Copy, Clone, PartialEq, Eq, Structural)]
pub enum SerfState {
    Alive,
    Leaving,
    Left,
    Shutdown,
}

/// Errors raised by the node itself.
#[derive(Debug, Clone, PartialEq, Eq)]
pub enum SerfError {
    /// The user event exceeds the configured limit, before encoding.
    UserEventLimitTooLarge(usize),
    /// The user event exceeds the sane limit, before encoding.
    UserEventTooLarge(usize),
    /// Join was called in the given state.
    BadJoinStatus(SerfState),
    /// Leave was called in the given state.
    BadLeaveStatus(SerfState),
    /// The encoded user event exceeds the sane limit.
    RawUserEventTooLarge(usize),
    /// The query exceeds the size limit.
    QueryTooLarge(usize),
    /// The query response came past the deadline.
    QueryTimeout,
    /// The query response exceeds the size limit.
    QueryResponseTooLarge { limit: usize, got: usize },
    /// The query has already been responded to.
    QueryAlreadyResponsed,
    /// The response could not be truncated to fit in a message.
    FailTruncateResponse,
    /// The encoded tags exceed the size limit.
    TagsTooLarge(usize),
    /// The relayed response exceeds the size limit.
    RelayedResponseTooLarge(usize),
    /// The query response could not be delivered.
    QueryResponseDeliveryFailed,
    /// Coordinates are disabled.
    CoordinatesDisabled,
    /// The snapshot journal failed, with the reason.
    Snapshot(String),
    /// Timed out broadcasting a node removal.
    RemovalBroadcastTimeout,
    /// The broadcast channel was closed.
    BroadcastChannelClosed,
}

/// Errors of the pluggable delegate: its own transform and merge errors, or
/// one of the node.
#[derive(Debug, Clone)]
pub enum SerfDelegateError<T, M> {
    Serf(SerfError),
    TransformDelegate(T),
    MergeDelegate(M),
}

impl<T, M> SerfDelegateError<T, M> {
    /// An error of the transform delegate.
    pub fn transform(err: T) -> (r: SerfDelegateError<T, M>)
        ensures
            r == SerfDelegateError::<T, M>::TransformDelegate(err),
    {
        SerfDelegateError::TransformDelegate(err)
    }

    /// An error of the merge delegate.
    pub fn merge(err: M) -> (r: SerfDelegateError<T, M>)
        ensures
            r == SerfDelegateError::<T, M>::MergeDelegate(err),
    {
        SerfDelegateError::MergeDelegate(err)
    }

    /// An error of the node.
    pub fn serf(err: SerfError) -> (r: SerfDelegateError<T, M>)
        ensures
            r == SerfDelegateError::<T, M>::Serf(err),
    {
        SerfDelegateError::Serf(err)
    }
}

/// Outcome of joining a list of peers: which joined, which failed and why,
/// and any error broadcasting the join intent.
#[derive(Debug, Clone)]
pub struct JoinError {
    pub joined: Vec<u64>,
    pub errors: Vec<(u64, SerfError)>,
    pub broadcast_error: Option<SerfError>,
}

impl JoinError {
    /// How many peers joined.
    pub fn num_joined(&self) -> (r: usize)
        ensures
            r == self.joined@.len(),
    {
        self.joined.len()
    }
}

/// The result of a join: it succeeds, with the number of peers joined, if and
/// only if at least one peer joined.
pub fn join_result(
    joined: Vec<u64>,
    errors: Vec<(u64, SerfError)>,
    broadcast_error: Option<SerfError>,
) -> (r: Result<usize, JoinError>)
    ensures
        r is Ok <==> joined@.len() > 0,
        r matches Ok(n) ==> n == joined@.len(),
        r matches Err(e) ==> e.joined@ == joined@ && e.errors@ == errors@ && e.broadcast_error
            == broadcast_error,
{
    if joined.len() > 0 {
        Ok(joined.len())
    } else {
        Err(JoinError { joined, errors, broadcast_error })
    }
}

} // verus!
