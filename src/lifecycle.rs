use vstd::prelude::*;

use crate::registry::{TunnelName, TunnelNamingError, TunnelRegistrationError};

verus! {

/// Failure of the transport beneath a tunnel.
#[derive(Debug, Clone, PartialEq, Eq)]
pub enum TunnelError {
    ConnectionClosed,
    TransportError(String),
}

/// Outcome of the per-sub-stream handshake, when it does not produce a service.
#[derive(Debug, Clone, PartialEq, Eq)]
pub enum NegotiationError {
    UnsupportedProtocolVersion,
    ProtocolViolation,
    ReadError,
    WriteError,
    Refused,
    UnsupportedServiceVersion,
    ApplicationError(String),
    FatalError(String),
}

/// Why serving the sub-streams of a tunnel stopped.
#[derive(Debug, Clone, PartialEq, Eq)]
pub enum RequestProcessingError {
    UnsupportedProtocolVersion,
    TunnelError(TunnelError),
    FatalError(String),
}

/// Why a tunnel's lifecycle ended other than gracefully.
#[derive(Debug, Clone, PartialEq, Eq)]
pub enum TunnelLifecycleError {
    RegistrationError(TunnelRegistrationError),
    RegistryNamingError(TunnelNamingError),
    RequestProcessingError(RequestProcessingError),
    AuthenticationRefused,
    FatalError(String),
}

/// A failure on our side while authenticating.
#[derive(Debug, Clone, PartialEq, Eq)]
pub enum AuthenticationHandlingError {
    ApplicationError(String),
    FatalApplicationError(String),
}

/// Why authentication produced no name.
#[derive(Debug, Clone, PartialEq, Eq)]
pub enum AuthenticationError {
    Remote(String),
    Handling(AuthenticationHandlingError),
}

/// Only a fatal request-processing error escapes as a fatal lifecycle error.
pub open spec fn lifecycle_error_spec(e: RequestProcessingError) -> TunnelLifecycleError {
    match e {
        RequestProcessingError::FatalError(m) => TunnelLifecycleError::FatalError(m),
        other => TunnelLifecycleError::RequestProcessingError(other),
    }
}

impl From<RequestProcessingError> for TunnelLifecycleError {
    fn from(e: RequestProcessingError) -> (r: TunnelLifecycleError)
        ensures
            r == lifecycle_error_spec(e),
    {
        match e {
            RequestProcessingError::FatalError(m) => TunnelLifecycleError::FatalError(m),
            other => TunnelLifecycleError::RequestProcessingError(other),
        }
    }
}

impl vstd::std_specs::convert::FromSpecImpl<RequestProcessingError> for TunnelLifecycleError {
    open spec fn obeys_from_spec() -> bool {
        true
    }

    open spec fn from_spec(e: RequestProcessingError) -> TunnelLifecycleError {
        lifecycle_error_spec(e)
    }
}

/// What the lifecycle makes of the authentication handler's answer.
#[derive(Debug, Clone, PartialEq, Eq)]
pub enum AuthenticationVerdict {
    /// Authenticated under this name.
    Named(TunnelName),
    /// Refused by the peer, or our handling failed: close the tunnel quietly.
    Closed,
    /// A server-wide fault that ends the lifecycle with a fatal error.
    Fatal(String),
}

pub open spec fn authentication_verdict_spec(r: Result<TunnelName, AuthenticationError>) -> AuthenticationVerdict {
    match r {
        Ok(name) => AuthenticationVerdict::Named(name),
        Err(AuthenticationError::Handling(AuthenticationHandlingError::FatalApplicationError(m))) =>
            AuthenticationVerdict::Fatal(m),
        Err(_) => AuthenticationVerdict::Closed,
    }
}

/// Sorts the authentication handler's answer: a name, a quiet close, or a fatal error.
pub fn authentication_verdict(r: Result<TunnelName, AuthenticationError>) -> (v: AuthenticationVerdict)
    ensures
        v == authentication_verdict_spec(r),
{
    match r {
        Ok(name) => AuthenticationVerdict::Named(name),
        Err(AuthenticationError::Handling(AuthenticationHandlingError::FatalApplicationError(m))) =>
            AuthenticationVerdict::Fatal(m),
        Err(_) => AuthenticationVerdict::Closed,
    }
}

/// What becomes of one sub-stream after its handshake.
#[derive(Debug, Clone, PartialEq, Eq)]
pub enum SubstreamDecision {
    /// Hand the sub-stream to the service that accepted its address.
    Dispatch,
    /// Let this sub-stream go; its siblings and the tunnel carry on.
    Discard,
    /// Stop serving the tunnel.
    Abort(RequestProcessingError),
}

/// A negotiation error that ends serving of the whole tunnel.
pub open spec fn is_fatal_negotiation_error(e: NegotiationError) -> bool {
    e is UnsupportedProtocolVersion || e is FatalError
}

pub open spec fn negotiation_decision_spec(r: Result<(), NegotiationError>, shutdown: bool) -> SubstreamDecision {
    match r {
        Ok(()) => if shutdown {
            SubstreamDecision::Discard
        } else {
            SubstreamDecision::Dispatch
        },
        Err(NegotiationError::UnsupportedProtocolVersion) => SubstreamDecision::Abort(
            RequestProcessingError::UnsupportedProtocolVersion,
        ),
        Err(NegotiationError::FatalError(m)) => SubstreamDecision::Abort(
            RequestProcessingError::FatalError(m),
        ),
        Err(_) => SubstreamDecision::Discard,
    }
}

/// Decides what follows a sub-stream's handshake. A service found while shutdown is
/// requested is not started.
pub fn negotiation_decision(r: Result<(), NegotiationError>, shutdown: bool) -> (d: SubstreamDecision)
    ensures
        d == negotiation_decision_spec(r, shutdown),
{
    match r {
        Ok(()) => if shutdown {
            SubstreamDecision::Discard
        } else {
            SubstreamDecision::Dispatch
        },
        Err(NegotiationError::UnsupportedProtocolVersion) => SubstreamDecision::Abort(
            RequestProcessingError::UnsupportedProtocolVersion,
        ),
        Err(NegotiationError::FatalError(m)) => SubstreamDecision::Abort(
            RequestProcessingError::FatalError(m),
        ),
        Err(_) => SubstreamDecision::Discard,
    }
}

/// Where one tunnel stands in its lifecycle.
#[derive(Debug, PartialEq, Eq)]
pub enum LifecycleState {
    /// An id was assigned; nothing else happened yet.
    Arrived,
    Registering,
    Authenticating,
    Naming { name: TunnelName },
    /// Named, and waiting for the tunnel's incoming sub-streams.
    Named { name: TunnelName },
    Serving { name: TunnelName },
    /// Deregistration was asked for; `named` is the name the tunnel carried, and `outcome`
    /// is how the lifecycle will end.
    Deregistering { named: Option<TunnelName>, outcome: Result<(), TunnelLifecycleError> },
    /// Deregistered; the lifecycle is over.
    Gone,
    /// Never registered; the lifecycle is over.
    Dropped,
}

/// What the driver of a lifecycle reports back.
#[derive(Debug, PartialEq, Eq)]
pub enum LifecycleEvent {
    Start,
    Registration(Result<(), TunnelRegistrationError>),
    Authentication(Result<TunnelName, AuthenticationError>),
    Naming(Result<(), TunnelNamingError>),
    /// Whether the tunnel offered a downlink of incoming sub-streams.
    Downlink(bool),
    SubstreamArrived,
    SubstreamNegotiated(Result<(), NegotiationError>),
    DownlinkEnded(Result<(), TunnelError>),
    Deregistered,
}

/// What the driver of a lifecycle is asked to do, in order.
#[derive(Debug, PartialEq, Eq)]
pub enum LifecycleAction {
    Register,
    EmitConnected,
    Authenticate,
    Name(TunnelName),
    EmitAuthenticated(TunnelName),
    OpenDownlink,
    Negotiate,
    Dispatch,
    DiscardSubstream,
    Deregister,
    EmitDisconnected(Option<TunnelName>),
    Finish(Result<(), TunnelLifecycleError>),
}

/// The lifecycle is over.
pub open spec fn is_terminal(s: LifecycleState) -> bool {
    s is Gone || s is Dropped
}

pub open spec fn deregistering(name: Option<TunnelName>, outcome: Result<(), TunnelLifecycleError>) -> (
    LifecycleState,
    Seq<LifecycleAction>,
) {
    (LifecycleState::Deregistering { named: name, outcome }, seq![LifecycleAction::Deregister])
}

/// One step of the lifecycle: the next state and the actions, given the event and whether
/// shutdown was requested. An event that does not fit the state changes nothing.
pub open spec fn transition(s: LifecycleState, e: LifecycleEvent, shutdown: bool) -> (
    LifecycleState,
    Seq<LifecycleAction>,
) {
    match (s, e) {
        (LifecycleState::Arrived, LifecycleEvent::Start) => if shutdown {
            (LifecycleState::Dropped, seq![LifecycleAction::Finish(Ok(()))])
        } else {
            (LifecycleState::Registering, seq![LifecycleAction::Register])
        },
        (LifecycleState::Registering, LifecycleEvent::Registration(r)) => match r {
            Ok(()) => (
                LifecycleState::Authenticating,
                seq![LifecycleAction::EmitConnected, LifecycleAction::Authenticate],
            ),
            Err(e) => (
                LifecycleState::Dropped,
                seq![LifecycleAction::Finish(Err(TunnelLifecycleError::RegistrationError(e)))],
            ),
        },
        (LifecycleState::Authenticating, LifecycleEvent::Authentication(r)) => match authentication_verdict_spec(r) {
            AuthenticationVerdict::Named(name) => (
                LifecycleState::Naming { name },
                seq![LifecycleAction::Name(name)],
            ),
            AuthenticationVerdict::Closed => deregistering(
                None,
                Err(TunnelLifecycleError::AuthenticationRefused),
            ),
            AuthenticationVerdict::Fatal(m) => deregistering(
                None,
                Err(TunnelLifecycleError::FatalError(m)),
            ),
        },
        (LifecycleState::Naming { name }, LifecycleEvent::Naming(r)) => match r {
            Ok(()) => (
                LifecycleState::Named { name },
                seq![LifecycleAction::EmitAuthenticated(name), LifecycleAction::OpenDownlink],
            ),
            Err(e) => deregistering(None, Err(TunnelLifecycleError::RegistryNamingError(e))),
        },
        (LifecycleState::Named { name }, LifecycleEvent::Downlink(present)) => if present {
            (LifecycleState::Serving { name }, Seq::empty())
        } else {
            deregistering(
                Some(name),
                Err(
                    TunnelLifecycleError::RequestProcessingError(
                        RequestProcessingError::TunnelError(TunnelError::ConnectionClosed),
                    ),
                ),
            )
        },
        (LifecycleState::Serving { name }, LifecycleEvent::SubstreamArrived) => if shutdown {
            (LifecycleState::Serving { name }, Seq::empty())
        } else {
            (LifecycleState::Serving { name }, seq![LifecycleAction::Negotiate])
        },
        (LifecycleState::Serving { name }, LifecycleEvent::SubstreamNegotiated(r)) => match negotiation_decision_spec(r, shutdown) {
            SubstreamDecision::Dispatch => (
                LifecycleState::Serving { name },
                seq![LifecycleAction::Dispatch],
            ),
            SubstreamDecision::Discard => (
                LifecycleState::Serving { name },
                seq![LifecycleAction::DiscardSubstream],
            ),
            SubstreamDecision::Abort(e) => deregistering(Some(name), Err(lifecycle_error_spec(e))),
        },
        (LifecycleState::Serving { name }, LifecycleEvent::DownlinkEnded(r)) => match r {
            Ok(()) => deregistering(Some(name), Ok(())),
            Err(e) => deregistering(
                Some(name),
                Err(TunnelLifecycleError::RequestProcessingError(RequestProcessingError::TunnelError(e))),
            ),
        },
        (LifecycleState::Deregistering { named, outcome }, LifecycleEvent::Deregistered) => (
            LifecycleState::Gone,
            seq![LifecycleAction::EmitDisconnected(named), LifecycleAction::Finish(outcome)],
        ),
        (s, _) => (s, Seq::empty()),
    }
}

fn deregister_now(name: Option<TunnelName>, outcome: Result<(), TunnelLifecycleError>) -> (r: (
    LifecycleState,
    Vec<LifecycleAction>,
))
    ensures
        (r.0, r.1@) == deregistering(name, outcome),
{
    let v = vec![LifecycleAction::Deregister];
    (LifecycleState::Deregistering { named: name, outcome }, v)
}

/// Advances a tunnel's lifecycle by one event.
pub fn step(s: LifecycleState, e: LifecycleEvent, shutdown: bool) -> (r: (
    LifecycleState,
    Vec<LifecycleAction>,
))
    ensures
        (r.0, r.1@) == transition(s, e, shutdown),
{
    match (s, e) {
        (LifecycleState::Arrived, LifecycleEvent::Start) => if shutdown {
            (LifecycleState::Dropped, vec![LifecycleAction::Finish(Ok(()))])
        } else {
            (LifecycleState::Registering, vec![LifecycleAction::Register])
        },
        (LifecycleState::Registering, LifecycleEvent::Registration(r)) => match r {
            Ok(()) => (
                LifecycleState::Authenticating,
                vec![LifecycleAction::EmitConnected, LifecycleAction::Authenticate],
            ),
            Err(e) => (
                LifecycleState::Dropped,
                vec![LifecycleAction::Finish(Err(TunnelLifecycleError::RegistrationError(e)))],
            ),
        },
        (LifecycleState::Authenticating, LifecycleEvent::Authentication(r)) => match authentication_verdict(r) {
            AuthenticationVerdict::Named(name) => {
                let announced = name.clone();
                (LifecycleState::Naming { name }, vec![LifecycleAction::Name(announced)])
            },
            AuthenticationVerdict::Closed => deregister_now(
                None,
                Err(TunnelLifecycleError::AuthenticationRefused),
            ),
            AuthenticationVerdict::Fatal(m) => deregister_now(
                None,
                Err(TunnelLifecycleError::FatalError(m)),
            ),
        },
        (LifecycleState::Naming { name }, LifecycleEvent::Naming(r)) => match r {
            Ok(()) => {
                let announced = name.clone();
                (
                    LifecycleState::Named { name },
                    vec![LifecycleAction::EmitAuthenticated(announced), LifecycleAction::OpenDownlink],
                )
            },
            Err(e) => deregister_now(None, Err(TunnelLifecycleError::RegistryNamingError(e))),
        },
        (LifecycleState::Named { name }, LifecycleEvent::Downlink(present)) => if present {
            (LifecycleState::Serving { name }, Vec::new())
        } else {
            deregister_now(
                Some(name),
                Err(
                    TunnelLifecycleError::RequestProcessingError(
                        RequestProcessingError::TunnelError(TunnelError::ConnectionClosed),
                    ),
                ),
            )
        },
        (LifecycleState::Serving { name }, LifecycleEvent::SubstreamArrived) => if shutdown {
            (LifecycleState::Serving { name }, Vec::new())
        } else {
            (LifecycleState::Serving { name }, vec![LifecycleAction::Negotiate])
        },
        (LifecycleState::Serving { name }, LifecycleEvent::SubstreamNegotiated(r)) => match negotiation_decision(r, shutdown) {
            SubstreamDecision::Dispatch => (
                LifecycleState::Serving { name },
                vec![LifecycleAction::Dispatch],
            ),
            SubstreamDecision::Discard => (
                LifecycleState::Serving { name },
                vec![LifecycleAction::DiscardSubstream],
            ),
            SubstreamDecision::Abort(e) => deregister_now(Some(name), Err(TunnelLifecycleError::from(e))),
        },
        (LifecycleState::Serving { name }, LifecycleEvent::DownlinkEnded(r)) => match r {
            Ok(()) => deregister_now(Some(name), Ok(())),
            Err(e) => deregister_now(
                Some(name),
                Err(TunnelLifecycleError::RequestProcessingError(RequestProcessingError::TunnelError(e))),
            ),
        },
        (LifecycleState::Deregistering { named, outcome }, LifecycleEvent::Deregistered) => (
            LifecycleState::Gone,
            vec![LifecycleAction::EmitDisconnected(named), LifecycleAction::Finish(outcome)],
        ),
        (s, _) => (s, Vec::new()),
    }
}

/// The states reached only through an accepted registration.
pub open spec fn was_registered(s: LifecycleState) -> bool {
    s is Authenticating || s is Naming || s is Named || s is Serving || s is Deregistering
        || s is Gone
}

/// How many deregistrations a lifecycle in state `s` has asked for.
pub open spec fn deregistrations_asked(s: LifecycleState) -> nat {
    if s is Deregistering || s is Gone {
        1
    } else {
        0
    }
}

/// How many actions of a trace satisfy `p`.
pub open spec fn count_where(tr: Seq<LifecycleAction>, p: spec_fn(LifecycleAction) -> bool) -> nat
    decreases tr.len(),
{
    if tr.len() == 0 {
        0
    } else {
        count_where(tr.drop_last(), p) + if p(tr.last()) {
            1nat
        } else {
            0nat
        }
    }
}

pub open spec fn is_deregister(a: LifecycleAction) -> bool {
    a is Deregister
}

pub open spec fn is_connected(a: LifecycleAction) -> bool {
    a is EmitConnected
}

/// The state reached from `s` and the actions asked for, when the driver reports `evs`,
/// each with whether shutdown was requested at that moment.
pub open spec fn run(s: LifecycleState, evs: Seq<(LifecycleEvent, bool)>) -> (
    LifecycleState,
    Seq<LifecycleAction>,
)
    decreases evs.len(),
{
    if evs.len() == 0 {
        (s, Seq::empty())
    } else {
        let prev = run(s, evs.drop_last());
        let next = transition(prev.0, evs.last().0, evs.last().1);
        (next.0, prev.1 + next.1)
    }
}

proof fn lemma_count_concat(a: Seq<LifecycleAction>, b: Seq<LifecycleAction>, p: spec_fn(LifecycleAction) -> bool)
    ensures
        count_where(a + b, p) == count_where(a, p) + count_where(b, p),
    decreases b.len(),
{
    if b.len() > 0 {
        assert((a + b).drop_last() =~= a + b.drop_last());
        lemma_count_concat(a, b.drop_last(), p);
    } else {
        assert(a + b =~= a);
    }
}

proof fn lemma_count_small(x: LifecycleAction, y: LifecycleAction, p: spec_fn(LifecycleAction) -> bool)
    ensures
        count_where(Seq::empty(), p) == 0,
        count_where(seq![x], p) == if p(x) { 1nat } else { 0nat },
        count_where(seq![x, y], p) == (if p(x) { 1nat } else { 0nat }) + (if p(y) { 1nat } else { 0nat }),
{
    reveal_with_fuel(count_where, 3);
    assert(seq![x].drop_last() =~= Seq::<LifecycleAction>::empty());
    assert(seq![x, y].drop_last() =~= seq![x]);
}

proof fn lemma_step_counts(s: LifecycleState, e: LifecycleEvent, shutdown: bool)
    ensures
        ({
            let (s2, a) = transition(s, e, shutdown);
            &&& deregistrations_asked(s2) == deregistrations_asked(s) + count_where(a, |x: LifecycleAction| is_deregister(x))
            &&& (if was_registered(s2) { 1nat } else { 0nat }) == (if was_registered(s) { 1nat } else { 0nat })
                + count_where(a, |x: LifecycleAction| is_connected(x))
        }),
{
    let a = transition(s, e, shutdown).1;
    if a.len() == 0 {
        lemma_count_small(LifecycleAction::Register, LifecycleAction::Register, |x: LifecycleAction| is_deregister(x));
        lemma_count_small(LifecycleAction::Register, LifecycleAction::Register, |x: LifecycleAction| is_connected(x));
    } else if a.len() == 1 {
        assert(a =~= seq![a[0]]);
        lemma_count_small(a[0], a[0], |x: LifecycleAction| is_deregister(x));
        lemma_count_small(a[0], a[0], |x: LifecycleAction| is_connected(x));
    } else {
        assert(a =~= seq![a[0], a[1]]);
        lemma_count_small(a[0], a[1], |x: LifecycleAction| is_deregister(x));
        lemma_count_small(a[0], a[1], |x: LifecycleAction| is_connected(x));
    }
}

/// From arrival, whatever the driver reports: the trace asks for a deregistration once the
/// registration was accepted and for no other, so at most one in all; a lifecycle that ends
/// after an accepted registration (which the connected event marks) asked for exactly one,
/// and one that ends without it asked for none.
pub proof fn lemma_deregistered_exactly_once(evs: Seq<(LifecycleEvent, bool)>)
    ensures
        ({
            let (s, tr) = run(LifecycleState::Arrived, evs);
            let deregs = count_where(tr, |x: LifecycleAction| is_deregister(x));
            let connects = count_where(tr, |x: LifecycleAction| is_connected(x));
            &&& deregs <= 1
            &&& connects <= 1
            &&& deregs == deregistrations_asked(s)
            &&& (connects == 1 <==> was_registered(s))
            &&& is_terminal(s) ==> deregs == connects
        }),
    decreases evs.len(),
{
    if evs.len() == 0 {
        lemma_count_small(LifecycleAction::Register, LifecycleAction::Register, |x: LifecycleAction| is_deregister(x));
        lemma_count_small(LifecycleAction::Register, LifecycleAction::Register, |x: LifecycleAction| is_connected(x));
    } else {
        lemma_deregistered_exactly_once(evs.drop_last());
        let prev = run(LifecycleState::Arrived, evs.drop_last());
        let next = transition(prev.0, evs.last().0, evs.last().1);
        lemma_step_counts(prev.0, evs.last().0, evs.last().1);
        lemma_count_concat(prev.1, next.1, |x: LifecycleAction| is_deregister(x));
        lemma_count_concat(prev.1, next.1, |x: LifecycleAction| is_connected(x));
    }
}

/// A sub-stream whose handshake fails without a fatal error is let go alone: the tunnel keeps
/// serving, and the next sub-stream is taken into negotiation as long as shutdown is not requested.
pub proof fn lemma_failed_substream_spares_siblings(name: TunnelName, e: NegotiationError, shutdown: bool)
    requires
        !is_fatal_negotiation_error(e),
    ensures
        transition(
            LifecycleState::Serving { name },
            LifecycleEvent::SubstreamNegotiated(Err(e)),
            shutdown,
        ) == (LifecycleState::Serving { name }, seq![LifecycleAction::DiscardSubstream]),
        transition(LifecycleState::Serving { name }, LifecycleEvent::SubstreamArrived, false) == (
            LifecycleState::Serving { name },
            seq![LifecycleAction::Negotiate],
        ),
{
}

/// Once shutdown is requested, no step registers a new tunnel, takes a new sub-stream into
/// negotiation, or starts a service.
pub proof fn lemma_shutdown_admits_nothing_new(s: LifecycleState, e: LifecycleEvent)
    ensures
        !transition(s, e, true).1.contains(LifecycleAction::Register),
        !transition(s, e, true).1.contains(LifecycleAction::Negotiate),
        !transition(s, e, true).1.contains(LifecycleAction::Dispatch),
{
    let a = transition(s, e, true).1;
    if a.len() == 1 {
        assert(a =~= seq![a[0]]);
    } else if a.len() == 2 {
        assert(a =~= seq![a[0], a[1]]);
    }
}

/// Action `a` stands in `tr` somewhere before position `i`.
pub open spec fn emitted_before(tr: Seq<LifecycleAction>, a: LifecycleAction, i: int) -> bool {
    exists|j: int| 0 <= j < i && j < tr.len() && #[trigger] tr[j] == a
}

/// The name a state says the tunnel was authenticated under, if any.
pub open spec fn announced_name(s: LifecycleState) -> Option<TunnelName> {
    match s {
        LifecycleState::Named { name } => Some(name),
        LifecycleState::Serving { name } => Some(name),
        LifecycleState::Deregistering { named, .. } => named,
        _ => None,
    }
}

/// Events come in lifecycle order: every authenticated event follows a connected event, and
/// every disconnected event that names the tunnel follows the authenticated event under that name.
pub open spec fn events_in_order(tr: Seq<LifecycleAction>) -> bool {
    &&& forall|i: int|
        0 <= i < tr.len() && (#[trigger] tr[i]) is EmitAuthenticated ==> emitted_before(
            tr,
            LifecycleAction::EmitConnected,
            i,
        )
    &&& forall|i: int|
        0 <= i < tr.len() && (#[trigger] tr[i]) is EmitDisconnected
            && tr[i]->EmitDisconnected_0 is Some ==> emitted_before(
            tr,
            LifecycleAction::EmitAuthenticated(tr[i]->EmitDisconnected_0->0),
            i,
        )
}

pub open spec fn order_invariant(s: LifecycleState, tr: Seq<LifecycleAction>) -> bool {
    &&& events_in_order(tr)
    &&& (s is Authenticating || s is Naming || s is Named || s is Serving) ==> emitted_before(
        tr,
        LifecycleAction::EmitConnected,
        tr.len() as int,
    )
    &&& announced_name(s) matches Some(n) ==> emitted_before(
        tr,
        LifecycleAction::EmitAuthenticated(n),
        tr.len() as int,
    )
}

proof fn lemma_step_keeps_order(s: LifecycleState, tr: Seq<LifecycleAction>, e: LifecycleEvent, shutdown: bool)
    requires
        order_invariant(s, tr),
    ensures
        order_invariant(transition(s, e, shutdown).0, tr + transition(s, e, shutdown).1),
{
    let (s2, a) = transition(s, e, shutdown);
    let t = tr + a;
    let len = tr.len() as int;
    assert forall|j: int| 0 <= j < len implies t[j] == tr[j] by {}
    assert forall|i: int, x: LifecycleAction| 0 <= i <= len && emitted_before(tr, x, i) implies emitted_before(t, x, i) by {
        let j = choose|j: int| 0 <= j < i && j < tr.len() && #[trigger] tr[j] == x;
        assert(t[j] == x);
    }
    assert forall|i: int|
        0 <= i < t.len() && (#[trigger] t[i]) is EmitAuthenticated
            implies emitted_before(t, LifecycleAction::EmitConnected, i) by {
        if i < len {
            assert(tr[i] is EmitAuthenticated);
        } else {
            assert(a[i - len] is EmitAuthenticated);
            assert(s is Naming);
            assert(emitted_before(tr, LifecycleAction::EmitConnected, len));
            assert(emitted_before(t, LifecycleAction::EmitConnected, len));
        }
    }
    assert forall|i: int|
        0 <= i < t.len() && (#[trigger] t[i]) is EmitDisconnected && t[i]->EmitDisconnected_0 is Some
            implies emitted_before(t, LifecycleAction::EmitAuthenticated(t[i]->EmitDisconnected_0->0), i) by {
        let n = t[i]->EmitDisconnected_0->0;
        if i < len {
            assert(tr[i] == t[i]);
        } else {
            assert(a[i - len] == LifecycleAction::EmitDisconnected(Some(n)));
            assert(announced_name(s) == Some(n));
            assert(emitted_before(tr, LifecycleAction::EmitAuthenticated(n), len));
            assert(emitted_before(t, LifecycleAction::EmitAuthenticated(n), len));
        }
    }
    if s2 is Authenticating || s2 is Naming || s2 is Named || s2 is Serving {
        if s is Registering {
            assert(t[len] == LifecycleAction::EmitConnected);
        } else {
            assert(emitted_before(tr, LifecycleAction::EmitConnected, len));
        }
    }
    if announced_name(s2) is Some {
        let n = announced_name(s2)->0;
        if s is Naming {
            assert(t[len] == LifecycleAction::EmitAuthenticated(n));
        } else {
            assert(announced_name(s) == Some(n));
            assert(emitted_before(tr, LifecycleAction::EmitAuthenticated(n), len));
        }
    }
}

/// Whatever the driver reports, a tunnel's events come in lifecycle order: no authenticated
/// event before a connected one, and no disconnected event naming the tunnel before the
/// authenticated event under that name.
pub proof fn lemma_events_in_order(evs: Seq<(LifecycleEvent, bool)>)
    ensures
        events_in_order(run(LifecycleState::Arrived, evs).1),
        order_invariant(run(LifecycleState::Arrived, evs).0, run(LifecycleState::Arrived, evs).1),
    decreases evs.len(),
{
    if evs.len() > 0 {
        lemma_events_in_order(evs.drop_last());
        let prev = run(LifecycleState::Arrived, evs.drop_last());
        lemma_step_keeps_order(prev.0, prev.1, evs.last().0, evs.last().1);
    }
}

} // verus!
