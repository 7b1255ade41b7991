use kernelkit::kernel::client::{request_next, request_start, RequestAction, RequestEvent, RequestState};

fn status(text: &str) -> RequestEvent {
    RequestEvent::StatusReply {
        status: text.to_string(),
        has_results: false,
        data: None,
        summary: None,
        reply: String::new(),
    }
}

#[test]
fn request_runs_from_context_to_idle() {
    let (state, action) = request_start();
    assert!(matches!(state, RequestState::FindingContext));
    assert!(matches!(action, RequestAction::FindContext));

    let (state, action) = request_next(state, RequestEvent::ContextFound { context: "ctx".to_string() });
    assert!(matches!(action, RequestAction::SendStatus { busy: true }));

    let (state, action) = request_next(state, RequestEvent::Sent);
    match action {
        RequestAction::ExecuteCommand { context } => assert_eq!(context, "ctx"),
        _ => assert!(false),
    }

    let (state, action) = request_next(state, RequestEvent::CommandStarted { execution: "cmd".to_string() });
    match action {
        RequestAction::ShowDisplay { mimetype, data, update } => {
            assert_eq!(mimetype, "text/plain");
            assert_eq!(data, "Running");
            assert!(!update);
        },
        _ => assert!(false),
    }

    let (state, action) = request_next(state, RequestEvent::Sent);
    match action {
        RequestAction::PollStatus { context, execution } => {
            assert_eq!(context, "ctx");
            assert_eq!(execution, "cmd");
        },
        _ => assert!(false),
    }

    let (state, action) = request_next(state, status("Queued"));
    match action {
        RequestAction::ShowDisplay { mimetype, data, update } => {
            assert_eq!(mimetype, "text/plain");
            assert_eq!(data, "Queued");
            assert!(update);
        },
        _ => assert!(false),
    }

    let (state, action) = request_next(state, RequestEvent::Sent);
    assert!(matches!(action, RequestAction::Sleep));

    let (state, action) = request_next(state, RequestEvent::Slept);
    assert!(matches!(action, RequestAction::PollStatus { .. }));

    let finished = RequestEvent::StatusReply {
        status: "Finished".to_string(),
        has_results: true,
        data: None,
        summary: Some("<b>done</b>".to_string()),
        reply: String::new(),
    };
    let (state, action) = request_next(state, finished);
    match action {
        RequestAction::ShowDisplay { mimetype, data, update } => {
            assert_eq!(mimetype, "text/html");
            assert_eq!(data, "<b>done</b>");
            assert!(update);
        },
        _ => assert!(false),
    }

    let (state, action) = request_next(state, RequestEvent::Sent);
    assert!(matches!(action, RequestAction::SendExecuteReply));

    let (state, action) = request_next(state, RequestEvent::Sent);
    assert!(matches!(action, RequestAction::SendStatus { busy: false }));

    let (state, action) = request_next(state, RequestEvent::Sent);
    assert!(matches!(state, RequestState::Done { ok: true }));
    assert!(matches!(action, RequestAction::Finish { ok: true }));
}

#[test]
fn request_shows_remote_failures() {
    let (state, action) = request_next(RequestState::FindingContext, RequestEvent::ContextFailed);
    assert!(matches!(state, RequestState::Reporting));
    assert!(matches!(action, RequestAction::PropagateError));

    let (state, action) = request_next(state, RequestEvent::Sent);
    assert!(matches!(state, RequestState::Done { ok: true }));
    assert!(matches!(action, RequestAction::Finish { ok: true }));

    let executing = RequestState::Executing { context: "ctx".to_string() };
    let (_, action) = request_next(executing, RequestEvent::CommandFailed);
    assert!(matches!(action, RequestAction::PropagateError));

    let polling = RequestState::Polling { context: "ctx".to_string(), execution: "cmd".to_string() };
    let (_, action) = request_next(polling, RequestEvent::StatusFailed);
    assert!(matches!(action, RequestAction::PropagateError));

    let (state, action) = request_next(RequestState::Reporting, RequestEvent::SendFailed);
    assert!(matches!(state, RequestState::Done { ok: false }));
    assert!(matches!(action, RequestAction::Finish { ok: false }));
}

#[test]
fn request_fails_when_frontend_cannot_be_reached() {
    let busy = RequestState::Busy { context: "ctx".to_string() };
    let (state, action) = request_next(busy, RequestEvent::SendFailed);
    assert!(matches!(state, RequestState::Done { ok: false }));
    assert!(matches!(action, RequestAction::Finish { ok: false }));

    let (_, action) = request_next(RequestState::Idling, RequestEvent::SendFailed);
    assert!(matches!(action, RequestAction::Finish { ok: false }));
}

#[test]
fn request_stops_polling_once_command_ends() {
    let polling = RequestState::Polling { context: "ctx".to_string(), execution: "cmd".to_string() };
    let (state, _) = request_next(polling, status("Error"));
    assert!(matches!(state, RequestState::Showing { again: false, .. }));
    let (_, action) = request_next(state, RequestEvent::Sent);
    assert!(matches!(action, RequestAction::SendExecuteReply));

    let polling = RequestState::Polling { context: "ctx".to_string(), execution: "cmd".to_string() };
    let (state, _) = request_next(polling, status("Running"));
    assert!(matches!(state, RequestState::Showing { again: true, .. }));
}

#[test]
fn request_fails_on_an_outcome_it_does_not_wait_for() {
    let (state, action) = request_next(RequestState::Replying, RequestEvent::Slept);
    assert!(matches!(state, RequestState::Done { ok: false }));
    assert!(matches!(action, RequestAction::Finish { ok: false }));
}
