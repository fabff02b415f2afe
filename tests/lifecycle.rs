use snocat::lifecycle::{
    authentication_verdict, negotiation_decision, step, AuthenticationError,
    AuthenticationHandlingError, AuthenticationVerdict, LifecycleAction, LifecycleEvent,
    LifecycleState, NegotiationError, RequestProcessingError, SubstreamDecision, TunnelError,
    TunnelLifecycleError,
};
use snocat::registry::{TunnelNamingError, TunnelRegistrationError};

fn drive(events: Vec<(LifecycleEvent, bool)>) -> (LifecycleState, Vec<LifecycleAction>) {
    let mut state = LifecycleState::Arrived;
    let mut trace = Vec::new();
    for (event, shutdown) in events {
        let (next, actions) = step(state, event, shutdown);
        state = next;
        trace.extend(actions);
    }
    (state, trace)
}

fn count(trace: &[LifecycleAction], wanted: &LifecycleAction) -> usize {
    trace.iter().filter(|a| *a == wanted).count()
}

#[test]
fn lifecycle_happy_path_trace() {
    let (state, trace) = drive(vec![
        (LifecycleEvent::Start, false),
        (LifecycleEvent::Registration(Ok(())), false),
        (LifecycleEvent::Authentication(Ok("alice".to_string())), false),
        (LifecycleEvent::Naming(Ok(())), false),
        (LifecycleEvent::Downlink(true), false),
        (LifecycleEvent::SubstreamArrived, false),
        (LifecycleEvent::SubstreamNegotiated(Ok(())), false),
        (LifecycleEvent::DownlinkEnded(Ok(())), false),
        (LifecycleEvent::Deregistered, false),
    ]);
    assert_eq!(state, LifecycleState::Gone);
    assert_eq!(
        trace,
        vec![
            LifecycleAction::Register,
            LifecycleAction::EmitConnected,
            LifecycleAction::Authenticate,
            LifecycleAction::Name("alice".to_string()),
            LifecycleAction::EmitAuthenticated("alice".to_string()),
            LifecycleAction::OpenDownlink,
            LifecycleAction::Negotiate,
            LifecycleAction::Dispatch,
            LifecycleAction::Deregister,
            LifecycleAction::EmitDisconnected(Some("alice".to_string())),
            LifecycleAction::Finish(Ok(())),
        ]
    );
}

#[test]
fn lifecycle_auth_refusal_trace() {
    let (state, trace) = drive(vec![
        (LifecycleEvent::Start, false),
        (LifecycleEvent::Registration(Ok(())), false),
        (LifecycleEvent::Authentication(Err(AuthenticationError::Remote("refused".to_string()))), false),
        (LifecycleEvent::Deregistered, false),
    ]);
    assert_eq!(state, LifecycleState::Gone);
    assert_eq!(
        trace,
        vec![
            LifecycleAction::Register,
            LifecycleAction::EmitConnected,
            LifecycleAction::Authenticate,
            LifecycleAction::Deregister,
            LifecycleAction::EmitDisconnected(None),
            LifecycleAction::Finish(Err(TunnelLifecycleError::AuthenticationRefused)),
        ]
    );
}

#[test]
fn lifecycle_name_collision_deregisters() {
    let (state, trace) = drive(vec![
        (LifecycleEvent::Start, false),
        (LifecycleEvent::Registration(Ok(())), false),
        (LifecycleEvent::Authentication(Ok("bob".to_string())), false),
        (LifecycleEvent::Naming(Err(TunnelNamingError::NameOccupied("bob".to_string()))), false),
        (LifecycleEvent::Deregistered, false),
    ]);
    assert_eq!(state, LifecycleState::Gone);
    assert_eq!(count(&trace, &LifecycleAction::Deregister), 1);
    assert_eq!(count(&trace, &LifecycleAction::EmitAuthenticated("bob".to_string())), 0);
    assert_eq!(
        trace.last(),
        Some(&LifecycleAction::Finish(Err(TunnelLifecycleError::RegistryNamingError(
            TunnelNamingError::NameOccupied("bob".to_string())
        ))))
    );
}

#[test]
fn lifecycle_refused_substream_keeps_serving() {
    let (state, trace) = drive(vec![
        (LifecycleEvent::Start, false),
        (LifecycleEvent::Registration(Ok(())), false),
        (LifecycleEvent::Authentication(Ok("eve".to_string())), false),
        (LifecycleEvent::Naming(Ok(())), false),
        (LifecycleEvent::Downlink(true), false),
        (LifecycleEvent::SubstreamArrived, false),
        (LifecycleEvent::SubstreamNegotiated(Err(NegotiationError::Refused)), false),
        (LifecycleEvent::SubstreamArrived, false),
        (LifecycleEvent::SubstreamNegotiated(Ok(())), false),
    ]);
    assert_eq!(state, LifecycleState::Serving { name: "eve".to_string() });
    assert_eq!(
        &trace[6..],
        &[
            LifecycleAction::Negotiate,
            LifecycleAction::DiscardSubstream,
            LifecycleAction::Negotiate,
            LifecycleAction::Dispatch,
        ][..]
    );
    assert_eq!(count(&trace, &LifecycleAction::Deregister), 0);
}

#[test]
fn nonfatal_negotiation_errors_are_discarded() {
    let errors = vec![
        NegotiationError::ProtocolViolation,
        NegotiationError::ReadError,
        NegotiationError::WriteError,
        NegotiationError::Refused,
        NegotiationError::UnsupportedServiceVersion,
        NegotiationError::ApplicationError("boom".to_string()),
    ];
    for e in errors {
        assert_eq!(negotiation_decision(Err(e.clone()), false), SubstreamDecision::Discard);
        let (state, actions) = step(
            LifecycleState::Serving { name: "n".to_string() },
            LifecycleEvent::SubstreamNegotiated(Err(e)),
            false,
        );
        assert_eq!(state, LifecycleState::Serving { name: "n".to_string() });
        assert_eq!(actions, vec![LifecycleAction::DiscardSubstream]);
    }
}

#[test]
fn fatal_negotiation_errors_end_serving() {
    assert_eq!(
        negotiation_decision(Err(NegotiationError::UnsupportedProtocolVersion), false),
        SubstreamDecision::Abort(RequestProcessingError::UnsupportedProtocolVersion)
    );
    let (state, actions) = step(
        LifecycleState::Serving { name: "n".to_string() },
        LifecycleEvent::SubstreamNegotiated(Err(NegotiationError::FatalError("bad".to_string()))),
        false,
    );
    assert_eq!(
        state,
        LifecycleState::Deregistering {
            named: Some("n".to_string()),
            outcome: Err(TunnelLifecycleError::FatalError("bad".to_string())),
        }
    );
    assert_eq!(actions, vec![LifecycleAction::Deregister]);
    let (state, _) = step(
        LifecycleState::Serving { name: "n".to_string() },
        LifecycleEvent::SubstreamNegotiated(Err(NegotiationError::UnsupportedProtocolVersion)),
        false,
    );
    assert_eq!(
        state,
        LifecycleState::Deregistering {
            named: Some("n".to_string()),
            outcome: Err(TunnelLifecycleError::RequestProcessingError(
                RequestProcessingError::UnsupportedProtocolVersion
            )),
        }
    );
}

#[test]
fn lifecycle_shutdown_during_serving() {
    let (state, trace) = drive(vec![
        (LifecycleEvent::Start, false),
        (LifecycleEvent::Registration(Ok(())), false),
        (LifecycleEvent::Authentication(Ok("frank".to_string())), false),
        (LifecycleEvent::Naming(Ok(())), false),
        (LifecycleEvent::Downlink(true), false),
        (LifecycleEvent::SubstreamArrived, false),
        (LifecycleEvent::SubstreamNegotiated(Ok(())), false),
        (LifecycleEvent::SubstreamArrived, true),
        (LifecycleEvent::SubstreamNegotiated(Ok(())), true),
        (LifecycleEvent::DownlinkEnded(Ok(())), true),
        (LifecycleEvent::Deregistered, true),
    ]);
    assert_eq!(state, LifecycleState::Gone);
    assert_eq!(count(&trace, &LifecycleAction::Negotiate), 1);
    assert_eq!(count(&trace, &LifecycleAction::Dispatch), 1);
    assert_eq!(count(&trace, &LifecycleAction::DiscardSubstream), 1);
    assert_eq!(count(&trace, &LifecycleAction::Deregister), 1);
}

#[test]
fn shutdown_refuses_new_tunnels() {
    let (state, trace) = drive(vec![(LifecycleEvent::Start, true)]);
    assert_eq!(state, LifecycleState::Dropped);
    assert_eq!(trace, vec![LifecycleAction::Finish(Ok(()))]);
}

#[test]
fn lifecycle_id_occupied_drops_without_deregistering() {
    let (state, trace) = drive(vec![
        (LifecycleEvent::Start, false),
        (LifecycleEvent::Registration(Err(TunnelRegistrationError::IdOccupied(7))), false),
    ]);
    assert_eq!(state, LifecycleState::Dropped);
    assert_eq!(
        trace,
        vec![
            LifecycleAction::Register,
            LifecycleAction::Finish(Err(TunnelLifecycleError::RegistrationError(
                TunnelRegistrationError::IdOccupied(7)
            ))),
        ]
    );
}

#[test]
fn fatal_authentication_error_deregisters_and_propagates() {
    let (state, trace) = drive(vec![
        (LifecycleEvent::Start, false),
        (LifecycleEvent::Registration(Ok(())), false),
        (
            LifecycleEvent::Authentication(Err(AuthenticationError::Handling(
                AuthenticationHandlingError::FatalApplicationError("disk".to_string()),
            ))),
            false,
        ),
        (LifecycleEvent::Deregistered, false),
    ]);
    assert_eq!(state, LifecycleState::Gone);
    assert_eq!(
        trace.last(),
        Some(&LifecycleAction::Finish(Err(TunnelLifecycleError::FatalError("disk".to_string()))))
    );
    assert_eq!(count(&trace, &LifecycleAction::Deregister), 1);
}

#[test]
fn authentication_verdicts() {
    assert_eq!(
        authentication_verdict(Ok("x".to_string())),
        AuthenticationVerdict::Named("x".to_string())
    );
    assert_eq!(
        authentication_verdict(Err(AuthenticationError::Remote("no".to_string()))),
        AuthenticationVerdict::Closed
    );
    assert_eq!(
        authentication_verdict(Err(AuthenticationError::Handling(
            AuthenticationHandlingError::ApplicationError("oops".to_string())
        ))),
        AuthenticationVerdict::Closed
    );
    assert_eq!(
        authentication_verdict(Err(AuthenticationError::Handling(
            AuthenticationHandlingError::FatalApplicationError("down".to_string())
        ))),
        AuthenticationVerdict::Fatal("down".to_string())
    );
}

#[test]
fn missing_downlink_counts_as_closed_connection() {
    let (state, actions) = step(
        LifecycleState::Named { name: "g".to_string() },
        LifecycleEvent::Downlink(false),
        false,
    );
    assert_eq!(
        state,
        LifecycleState::Deregistering {
            named: Some("g".to_string()),
            outcome: Err(TunnelLifecycleError::RequestProcessingError(
                RequestProcessingError::TunnelError(TunnelError::ConnectionClosed)
            )),
        }
    );
    assert_eq!(actions, vec![LifecycleAction::Deregister]);
}

#[test]
fn downlink_error_ends_serving_with_tunnel_error() {
    let (state, _) = step(
        LifecycleState::Serving { name: "h".to_string() },
        LifecycleEvent::DownlinkEnded(Err(TunnelError::TransportError("reset".to_string()))),
        false,
    );
    assert_eq!(
        state,
        LifecycleState::Deregistering {
            named: Some("h".to_string()),
            outcome: Err(TunnelLifecycleError::RequestProcessingError(
                RequestProcessingError::TunnelError(TunnelError::TransportError("reset".to_string()))
            )),
        }
    );
}

#[test]
fn unexpected_event_changes_nothing() {
    let (state, actions) = step(LifecycleState::Authenticating, LifecycleEvent::Downlink(true), false);
    assert_eq!(state, LifecycleState::Authenticating);
    assert!(actions.is_empty());
}

#[test]
fn fatal_request_error_converts_to_fatal_lifecycle_error() {
    assert_eq!(
        TunnelLifecycleError::from(RequestProcessingError::FatalError("f".to_string())),
        TunnelLifecycleError::FatalError("f".to_string())
    );
    assert_eq!(
        TunnelLifecycleError::from(RequestProcessingError::UnsupportedProtocolVersion),
        TunnelLifecycleError::RequestProcessingError(RequestProcessingError::UnsupportedProtocolVersion)
    );
}
