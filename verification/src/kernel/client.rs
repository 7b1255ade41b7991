use vstd::prelude::*;

verus! {

/// What the display of a running command shows for one status reply: its mime type, the status,
/// and the text. A finished command with results shows its text output, or else its summary as
/// HTML, or else the whole reply; any other reply shows the status itself.
pub open spec fn status_display_of(
    status: Seq<char>,
    has_results: bool,
    data: Option<Seq<char>>,
    summary: Option<Seq<char>>,
    reply: Seq<char>,
) -> (Seq<char>, Seq<char>, Seq<char>) {
    if status == "Finished"@ && has_results {
        match data {
            Some(d) => ("text/plain"@, status, d),
            None => match summary {
                Some(s) => ("text/html"@, status, s),
                None => ("text/plain"@, status, reply),
            },
        }
    } else {
        ("text/plain"@, status, status)
    }
}

/// The mime type, status and text that the display shows for a status reply; `reply` is the
/// whole reply written out, shown when a finished command has neither output nor summary.
pub fn status_display(
    status: &String,
    has_results: bool,
    data: &Option<String>,
    summary: &Option<String>,
    reply: &String,
) -> (r: (String, String, String))
    ensures
        (r.0@, r.1@, r.2@) == status_display_of(
            status@,
            has_results,
            match data {
                Some(d) => Some(d@),
                None => None,
            },
            match summary {
                Some(s) => Some(s@),
                None => None,
            },
            reply@,
        ),
{
    let finished = "Finished".to_owned();
    if *status == finished && has_results {
        match (data, summary) {
            (Some(data), _) => ("text/plain".to_owned(), status.clone(), data.clone()),
            (_, Some(summary)) => ("text/html".to_owned(), status.clone(), summary.clone()),
            (None, None) => ("text/plain".to_owned(), status.clone(), reply.clone()),
        }
    } else {
        ("text/plain".to_owned(), status.clone(), status.clone())
    }
}

/// Whether the command is still going: it is running or queued, so its status is asked again.
pub fn keeps_polling(status: &String) -> (r: bool)
    ensures
        r == (status@ == "Running"@ || status@ == "Queued"@),
{
    let running = "Running".to_owned();
    let queued = "Queued".to_owned();
    *status == running || *status == queued
}

/// Where the handling of one code request stands, each state waiting for the outcome of the
/// action that led to it.
pub enum RequestState {
    /// The remote context of the request's session is being found or created.
    FindingContext,
    /// The busy status is being sent; the remote context is known.
    Busy { context: String },
    /// The code is being handed to the remote context.
    Executing { context: String },
    /// The "Running" display is being sent; the remote command is known.
    Announcing { context: String, execution: String },
    /// The remote command's status is being asked.
    Polling { context: String, execution: String },
    /// A status is being displayed; `again` tells whether the command was still going.
    Showing { context: String, execution: String, again: bool },
    /// A pause before the status is asked again.
    Sleeping { context: String, execution: String },
    /// The execute reply is being sent.
    Replying,
    /// The idle status is being sent.
    Idling,
    /// A failure of the remote side is being displayed to the frontend.
    Reporting,
    /// The handling is over, successfully or not.
    Done { ok: bool },
}

/// The outcome of an action.
pub enum RequestEvent {
    /// The remote context was found or created.
    ContextFound { context: String },
    /// The remote context could not be found or created.
    ContextFailed,
    /// A message to the frontend was sent.
    Sent,
    /// A message to the frontend could not be sent.
    SendFailed,
    /// The remote command was started.
    CommandStarted { execution: String },
    /// The remote command could not be started.
    CommandFailed,
    /// The remote command's status; `reply` is the whole reply written out.
    StatusReply { status: String, has_results: bool, data: Option<String>, summary: Option<String>, reply: String },
    /// The remote command's status could not be had.
    StatusFailed,
    /// The pause is over.
    Slept,
}

/// What to do next.
pub enum RequestAction {
    /// Find or create the remote context of the request's session.
    FindContext,
    /// Send the status busy, or idle.
    SendStatus { busy: bool },
    /// Hand the request's code to the remote context.
    ExecuteCommand { context: String },
    /// Show `data` as `mimetype` in the request's display: a new display, or an update of it.
    ShowDisplay { mimetype: String, data: String, update: bool },
    /// Ask for the status of the remote command.
    PollStatus { context: String, execution: String },
    /// Pause for a second.
    Sleep,
    /// Send the execute reply with status ok.
    SendExecuteReply,
    /// Update the request's display with the failure that came.
    PropagateError,
    /// End the handling: with success, or with the failure that came.
    Finish { ok: bool },
}

/// One step of the handling of a request: from `state` and the outcome `event` of the last
/// action to `next` and the action to take. The context is found, the busy status sent, the code
/// executed and "Running" displayed; then the status is asked and displayed, after a pause again
/// while the command runs or waits; then the execute reply and the idle status are sent. A
/// failure of the remote side is displayed and ends the handling with the outcome of that
/// display; a failure to send to the frontend ends it as failed, as does an event that the state
/// does not wait for.
pub open spec fn request_step(
    state: RequestState,
    event: RequestEvent,
    next: RequestState,
    action: RequestAction,
) -> bool {
    let failed = next == RequestState::Done { ok: false } && action == RequestAction::Finish { ok: false };
    match state {
        RequestState::FindingContext => match event {
            RequestEvent::ContextFound { context } => next matches RequestState::Busy { context: c } && c@
                == context@ && action == RequestAction::SendStatus { busy: true },
            RequestEvent::ContextFailed => next == RequestState::Reporting && action == RequestAction::PropagateError,
            _ => failed,
        },
        RequestState::Busy { context } => match event {
            RequestEvent::Sent => {
                &&& next matches RequestState::Executing { context: c } && c@ == context@
                &&& action matches RequestAction::ExecuteCommand { context: c } && c@ == context@
            },
            _ => failed,
        },
        RequestState::Executing { context } => match event {
            RequestEvent::CommandStarted { execution } => {
                &&& next matches RequestState::Announcing { context: c, execution: e } && c@ == context@ && e@
                    == execution@
                &&& action matches RequestAction::ShowDisplay { mimetype, data, update } && mimetype@
                    == "text/plain"@ && data@ == "Running"@ && !update
            },
            RequestEvent::CommandFailed => next == RequestState::Reporting && action == RequestAction::PropagateError,
            _ => failed,
        },
        RequestState::Announcing { context, execution } => match event {
            RequestEvent::Sent => {
                &&& next matches RequestState::Polling { context: c, execution: e } && c@ == context@ && e@
                    == execution@
                &&& action matches RequestAction::PollStatus { context: c, execution: e } && c@ == context@ && e@
                    == execution@
            },
            _ => failed,
        },
        RequestState::Polling { context, execution } => match event {
            RequestEvent::StatusReply { status, has_results, data, summary, reply } => {
                let shown = status_display_of(
                    status@,
                    has_results,
                    match data {
                        Some(d) => Some(d@),
                        None => None,
                    },
                    match summary {
                        Some(s) => Some(s@),
                        None => None,
                    },
                    reply@,
                );
                &&& next matches RequestState::Showing { context: c, execution: e, again } && c@ == context@ && e@
                    == execution@ && again == (status@ == "Running"@ || status@ == "Queued"@)
                &&& action matches RequestAction::ShowDisplay { mimetype, data, update } && mimetype@ == shown.0
                    && data@ == shown.2 && update
            },
            RequestEvent::StatusFailed => next == RequestState::Reporting && action == RequestAction::PropagateError,
            _ => failed,
        },
        RequestState::Showing { context, execution, again } => match event {
            RequestEvent::Sent => if again {
                &&& next matches RequestState::Sleeping { context: c, execution: e } && c@ == context@ && e@
                    == execution@
                &&& action == RequestAction::Sleep
            } else {
                next == RequestState::Replying && action == RequestAction::SendExecuteReply
            },
            _ => failed,
        },
        RequestState::Sleeping { context, execution } => match event {
            RequestEvent::Slept => {
                &&& next matches RequestState::Polling { context: c, execution: e } && c@ == context@ && e@
                    == execution@
                &&& action matches RequestAction::PollStatus { context: c, execution: e } && c@ == context@ && e@
                    == execution@
            },
            _ => failed,
        },
        RequestState::Replying => match event {
            RequestEvent::Sent => next == RequestState::Idling && action == RequestAction::SendStatus { busy: false },
            _ => failed,
        },
        RequestState::Idling => match event {
            RequestEvent::Sent => next == RequestState::Done { ok: true } && action == RequestAction::Finish { ok: true },
            _ => failed,
        },
        RequestState::Reporting => match event {
            RequestEvent::Sent => next == RequestState::Done { ok: true } && action == RequestAction::Finish { ok: true },
            _ => failed,
        },
        RequestState::Done { .. } => failed,
    }
}

/// The remote context that a state holds, from the moment it is known.
pub open spec fn held_context(st: RequestState) -> Option<Seq<char>> {
    match st {
        RequestState::Busy { context } => Some(context@),
        RequestState::Executing { context } => Some(context@),
        RequestState::Announcing { context, .. } => Some(context@),
        RequestState::Polling { context, .. } => Some(context@),
        RequestState::Showing { context, .. } => Some(context@),
        RequestState::Sleeping { context, .. } => Some(context@),
        _ => None,
    }
}

/// The remote context and command that a state holds, from the moment the command is started.
pub open spec fn held_ids(st: RequestState) -> Option<(Seq<char>, Seq<char>)> {
    match st {
        RequestState::Announcing { context, execution } => Some((context@, execution@)),
        RequestState::Polling { context, execution } => Some((context@, execution@)),
        RequestState::Showing { context, execution, .. } => Some((context@, execution@)),
        RequestState::Sleeping { context, execution } => Some((context@, execution@)),
        _ => None,
    }
}

/// The ids of a request never change once known: a step between two states that both hold the
/// remote context keeps it, and one between two states that both hold the remote command keeps
/// the context and the command; the code is handed to the context that the state holds; and every
/// status poll, the first and each one after a pause, asks about exactly the context and command
/// of the state it comes from, which the polling state then holds.
pub proof fn lemma_request_ids_kept(
    state: RequestState,
    event: RequestEvent,
    next: RequestState,
    action: RequestAction,
)
    requires
        request_step(state, event, next, action),
    ensures
        held_context(state) is Some && held_context(next) is Some ==> held_context(next) == held_context(state),
        held_ids(state) is Some && held_ids(next) is Some ==> held_ids(next) == held_ids(state),
        action matches RequestAction::ExecuteCommand { context: c } ==> held_context(state) == Some(c@),
        action matches RequestAction::PollStatus { context: c, execution: e } ==> held_ids(state) == Some(
            (c@, e@),
        ) && held_ids(next) == Some((c@, e@)),
{
}

/// The handling of a request begins by finding the remote context of its session.
pub fn request_start() -> (r: (RequestState, RequestAction))
    ensures
        r.0 == RequestState::FindingContext,
        r.1 == RequestAction::FindContext,
{
    (RequestState::FindingContext, RequestAction::FindContext)
}

/// The state and action that follow `state` when its action ended in `event`.
pub fn request_next(state: RequestState, event: RequestEvent) -> (r: (RequestState, RequestAction))
    ensures
        request_step(state, event, r.0, r.1),
{
    let failed = (RequestState::Done { ok: false }, RequestAction::Finish { ok: false });
    match state {
        RequestState::FindingContext => match event {
            RequestEvent::ContextFound { context } => (
                RequestState::Busy { context },
                RequestAction::SendStatus { busy: true },
            ),
            RequestEvent::ContextFailed => (RequestState::Reporting, RequestAction::PropagateError),
            _ => failed,
        },
        RequestState::Busy { context } => match event {
            RequestEvent::Sent => (
                RequestState::Executing { context: context.clone() },
                RequestAction::ExecuteCommand { context },
            ),
            _ => failed,
        },
        RequestState::Executing { context } => match event {
            RequestEvent::CommandStarted { execution } => (
                RequestState::Announcing { context, execution },
                RequestAction::ShowDisplay {
                    mimetype: "text/plain".to_owned(),
                    data: "Running".to_owned(),
                    update: false,
                },
            ),
            RequestEvent::CommandFailed => (RequestState::Reporting, RequestAction::PropagateError),
            _ => failed,
        },
        RequestState::Announcing { context, execution } => match event {
            RequestEvent::Sent => (
                RequestState::Polling { context: context.clone(), execution: execution.clone() },
                RequestAction::PollStatus { context, execution },
            ),
            _ => failed,
        },
        RequestState::Polling { context, execution } => match event {
            RequestEvent::StatusReply { status, has_results, data, summary, reply } => {
                let shown = status_display(&status, has_results, &data, &summary, &reply);
                let again = keeps_polling(&status);
                (
                    RequestState::Showing { context, execution, again },
                    RequestAction::ShowDisplay { mimetype: shown.0, data: shown.2, update: true },
                )
            },
            RequestEvent::StatusFailed => (RequestState::Reporting, RequestAction::PropagateError),
            _ => failed,
        },
        RequestState::Showing { context, execution, again } => match event {
            RequestEvent::Sent => if again {
                (RequestState::Sleeping { context, execution }, RequestAction::Sleep)
            } else {
                (RequestState::Replying, RequestAction::SendExecuteReply)
            },
            _ => failed,
        },
        RequestState::Sleeping { context, execution } => match event {
            RequestEvent::Slept => (
                RequestState::Polling { context: context.clone(), execution: execution.clone() },
                RequestAction::PollStatus { context, execution },
            ),
            _ => failed,
        },
        RequestState::Replying => match event {
            RequestEvent::Sent => (RequestState::Idling, RequestAction::SendStatus { busy: false }),
            _ => failed,
        },
        RequestState::Idling => match event {
            RequestEvent::Sent => (RequestState::Done { ok: true }, RequestAction::Finish { ok: true }),
            _ => failed,
        },
        RequestState::Reporting => match event {
            RequestEvent::Sent => (RequestState::Done { ok: true }, RequestAction::Finish { ok: true }),
            _ => failed,
        },
        RequestState::Done { .. } => failed,
    }
}

/// The execution count of the next request: one more than the last.
pub fn next_execution_count(counter: u32) -> (r: u32)
    requires
        counter < u32::MAX,
    ensures
        r == counter + 1,
{
    counter + 1
}

} // verus!
