use vstd::prelude::*;

verus! {

/// Which state a delegated result arrives in.
#[derive(Debug, Copy, Clone, Ord, PartialOrd, Eq, PartialEq)]
pub enum CompletionState {
    Complete,
    Cancelled,
    Exception,
}

/// A failure while dispatching a delegation or receiving its result.
#[derive(Debug)]
pub enum DelegationError {
    DispatcherDropped,
    DeserializationFailed(String),
    DispatchFailed,
    Cancelled,
    RemoteException(String),
}

/// A failure under the remote event loop while fulfilling a delegation.
#[derive(Debug, Clone, PartialEq, Eq)]
pub enum RemoteError {
    Cancelled,
    Exception(String),
}

/// How a locally run event ended, as reported to the remote side.
#[derive(Debug, Copy, Clone, Eq, PartialEq)]
pub enum EventCompletionState {
    Complete,
    Failed,
    Panicked,
    Cancelled,
    DispatchFailed,
}

/// A failure while running an event for the remote side.
#[derive(Debug)]
pub enum EventingError {
    DispatcherDropped,
    DeserializationFailed(String),
    DispatchFailed,
}

/// The result of a delegation, with its context under its own type.
pub struct TypedDelegationResult<T, TContext>(pub T, pub Option<TContext>);

/// The pretty-printed form of a JSON text, where it parses.
pub uninterp spec fn pretty_json(s: Seq<char>) -> Option<Seq<char>>;

/// Relies on `serde_json::from_str::<serde_json::Value>` to parse the text and
/// `serde_json::to_string_pretty` to print the value again; `None` where it does not parse.
#[verifier::external_body]
fn reformat_json(s: &str) -> (r: Option<String>)
    ensures
        match r {
            Some(p) => pretty_json(s@) == Some(p@),
            None => pretty_json(s@) is None,
        },
{
    match serde_json::from_str::<serde_json::Value>(s) {
        Ok(v) => serde_json::to_string_pretty(&v).ok(),
        Err(_) => None,
    }
}

/// The message an exception carries: its JSON pretty-printed, or the text as it came
/// where it is not JSON.
pub open spec fn exception_message(json: Seq<char>) -> Seq<char> {
    match pretty_json(json) {
        Some(p) => p,
        None => json,
    }
}

/// The remote result that a completion state and its JSON payload stand for.
pub fn map_completion_state(completion_state: CompletionState, json: String) -> (r: Result<
    String,
    RemoteError,
>)
    ensures
        completion_state is Complete ==> r is Ok && r->Ok_0@ == json@,
        completion_state is Cancelled ==> r == Err::<String, RemoteError>(RemoteError::Cancelled),
        completion_state is Exception ==> (r matches Err(RemoteError::Exception(m)) && m@
            == exception_message(json@)),
{
    match completion_state {
        CompletionState::Complete => Ok(json),
        CompletionState::Cancelled => Err(RemoteError::Cancelled),
        CompletionState::Exception => match reformat_json(json.as_str()) {
            Some(pretty) => Err(RemoteError::Exception(pretty)),
            None => Err(RemoteError::Exception(json)),
        },
    }
}

} // verus!
