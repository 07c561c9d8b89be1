//! Receiving: the server's side of a session.

use crate::config::ServerConfig;
use crate::ops::list::{list, listing};
use crate::ops::send::{
    move_hold, moves_hold, session_step, HoldMove, SendError, SendSession, SendState, SessionAction,
    SessionEvent,
};
use crate::protocol::codec::{ClientHello, ClientReady, CodecError, ServerHello, ServerStatus};
use crate::protocol::handshake::{
    admissible, answers, head_of, in_context, only_admissible_requests_are_admitted, refusals_are_answered,
    server_handshake, server_hello, Admission, Outcome,
};
use crate::text::{opt_text, str_texts, texts};
use crate::time::Timestamp;
use crate::zfs::client::{ClientError, ZfsCommand};
use crate::VERSION;
use vstd::prelude::*;
use vstd::string::*;

verus! {

/// Where a session stands.
#[derive(Debug)]
pub enum ServerState {
    /// The client's hello is awaited.
    AwaitHello,
    /// The pool is asked what it has of the target.
    AwaitAnswer { target: String, opts: Vec<String> },
    /// The client's readiness is awaited.
    AwaitReady { target: String, opts: Vec<String> },
    /// `zfs receive` is being started.
    AwaitReceiver { target: String },
    /// The stream is being taken in.
    Receiving { target: String },
    /// `zfs receive` is being waited for.
    AwaitExit { target: String, ended: StreamEnd },
    /// An interrupted transfer to the target is being noted.
    AwaitNote { target: String, conclusion: Conclusion },
    /// The session is over.
    Closed,
}

/// How the stream ended.
#[derive(Clone, Copy, Debug, PartialEq, Eq, Structural)]
pub enum StreamEnd {
    /// It is complete.
    Complete,
    /// The connection was closed.
    Cancelled,
    /// It broke.
    Broken,
}

/// How the session will end.
#[derive(Debug)]
pub enum Conclusion {
    /// Nobody is left to be told.
    Silent,
    /// The client is told of a failure.
    Tell(String),
}

/// What happened.
#[derive(Debug)]
pub enum ServerEvent {
    /// The client's hello was read, or not.
    HelloRead(Result<ClientHello, CodecError>),
    /// The pool said whether a transfer to the target was interrupted, and which
    /// snapshots it has.
    Answered(Result<Option<String>, ClientError>, Result<Vec<String>, ClientError>),
    /// The client's readiness was read, or not.
    ReadyRead(Result<ClientReady, CodecError>),
    /// `zfs receive` was started, or not.
    ReceiverStarted(Result<(), ClientError>),
    /// The stream ended: complete, or cut short on request, or broken.
    StreamEnded(Result<bool, CodecError>),
    /// `zfs receive` ended.
    ReceiverFinished(Result<(), ClientError>),
    /// An interrupted transfer was noted, or not.
    Noted(Result<(), String>),
}

/// What to do.
#[derive(Debug)]
pub enum ServerAction {
    /// Send the replies, and ask the pool about the target.
    Ask { replies: Vec<ServerStatus>, target: String },
    /// Send the hello, and read the client's readiness.
    SendHello(ServerHello),
    /// Start `zfs receive`.
    StartReceiver(ZfsCommand),
    /// Take in the stream.
    TakeIn,
    /// Close the receiver's input and wait for it.
    FinishReceiver,
    /// Note an interrupted transfer to the target, where there is one.
    Note { target: String },
    /// Move the hold to what the target received, send the replies, and end.
    HoldAndClose { target: String, replies: Vec<ServerStatus> },
    /// Send the replies, and end.
    Close { replies: Vec<ServerStatus>, result: Result<(), String> },
}

/// Whether an event can happen in a state.
pub open spec fn can_happen(state: ServerState, event: ServerEvent) -> bool {
    match (state, event) {
        (ServerState::AwaitHello, ServerEvent::HelloRead(_)) => true,
        (ServerState::AwaitAnswer { .. }, ServerEvent::Answered(_, _)) => true,
        (ServerState::AwaitReady { .. }, ServerEvent::ReadyRead(_)) => true,
        (ServerState::AwaitReceiver { .. }, ServerEvent::ReceiverStarted(_)) => true,
        (ServerState::Receiving { .. }, ServerEvent::StreamEnded(_)) => true,
        (ServerState::AwaitExit { .. }, ServerEvent::ReceiverFinished(_)) => true,
        (ServerState::AwaitNote { .. }, ServerEvent::Noted(_)) => true,
        _ => false,
    }
}

/// Whether the session ends in silence, with this error.
pub open spec fn ends_with_error(
    next: ServerState,
    action: ServerAction,
    what: Seq<char>,
    err: Seq<char>,
) -> bool {
    &&& next is Closed
    &&& match action {
        ServerAction::Close { replies, result: Err(e) } => replies@.len() == 0 && e@ == in_context(
            what,
            err,
        ),
        _ => false,
    }
}

/// Whether the session ends in good order, in silence.
pub open spec fn ends_quietly(next: ServerState, action: ServerAction) -> bool {
    &&& next is Closed
    &&& match action {
        ServerAction::Close { replies, result: Ok(_) } => replies@.len() == 0,
        _ => false,
    }
}

/// What the client is told when the receiver ended with `exit` behind a stream that
/// broke.
pub open spec fn broken_message(exit: Result<(), ClientError>) -> Seq<char> {
    match exit {
        Ok(_) => "stream error"@,
        Err(e) => e.text(),
    }
}

/// Whether `next` and `action` note an interrupted transfer to `dataset` and then tell
/// the client so, or nobody.
pub open spec fn notes_then(
    next: ServerState,
    action: ServerAction,
    dataset: Seq<char>,
    told: Option<Seq<char>>,
) -> bool {
    &&& match action {
        ServerAction::Note { target } => target@ == dataset,
        _ => false,
    }
    &&& match next {
        ServerState::AwaitNote { target, conclusion } => target@ == dataset && match (
            conclusion,
            told,
        ) {
            (Conclusion::Silent, None) => true,
            (Conclusion::Tell(message), Some(text)) => message@ == text,
            _ => false,
        },
        _ => false,
    }
}

/// Whether `next` and `action` follow from an answer to the client's hello.
pub open spec fn acts_on(answer: Admission, next: ServerState, action: ServerAction) -> bool {
    match answer.outcome {
        Outcome::Admit(result) => {
            &&& match next {
                ServerState::AwaitAnswer { target, opts } => target@ == result.target@ && opts@
                    == result.zfs_receive_opts@,
                _ => false,
            }
            &&& match action {
                ServerAction::Ask { replies, target } => replies@ == answer.replies@ && target@
                    == result.target@,
                _ => false,
            }
        },
        Outcome::Close => {
            &&& next is Closed
            &&& match action {
                ServerAction::Close { replies, result: Ok(_) } => replies@ == answer.replies@,
                _ => false,
            }
        },
    }
}

/// Whether `next` and `action` are what an event leads to.
pub open spec fn server_step(
    config: ServerConfig,
    permitted: Seq<Seq<char>>,
    state: ServerState,
    event: ServerEvent,
    next: ServerState,
    action: ServerAction,
) -> bool {
    match (state, event) {
        (ServerState::AwaitHello, ServerEvent::HelloRead(read)) => match read {
            Err(e) => ends_with_error(next, action, "reading ClientHello"@, e.text()),
            Ok(request) => exists|answer: Admission|
                answers(config, permitted, request, answer) && acts_on(answer, next, action),
        },
        (ServerState::AwaitAnswer { target, opts }, ServerEvent::Answered(token, snapshots)) => match (
            token,
            snapshots,
        ) {
            (Err(e), _) => ends_with_error(next, action, "checking resume token"@, e.text()),
            (Ok(_), Err(e)) => ends_with_error(next, action, "listing snapshots"@, e.text()),
            (Ok(t), Ok(raw)) => {
                &&& match next {
                    ServerState::AwaitReady { target: u, opts: o } => u@ == target@ && o@ == opts@,
                    _ => false,
                }
                &&& match action {
                    ServerAction::SendHello(hello) => hello.version@ == VERSION@ && opt_text(
                        hello.head,
                    ) == head_of(texts(raw@)) && hello.resume_token == t,
                    _ => false,
                }
            },
        },
        (ServerState::AwaitReady { target, opts }, ServerEvent::ReadyRead(read)) => match read {
            Err(e) => ends_with_error(next, action, "reading ClientReady"@, e.text()),
            Ok(ready) => if ready.ok {
                &&& match next {
                    ServerState::AwaitReceiver { target: u } => u@ == target@,
                    _ => false,
                }
                &&& match action {
                    ServerAction::StartReceiver(ZfsCommand::Receive { dataset, opts: o }) =>
                        dataset@ == target@ && o@ == opts@,
                    _ => false,
                }
            } else {
                ends_quietly(next, action)
            },
        },
        (
            ServerState::AwaitReceiver { target },
            ServerEvent::ReceiverStarted(started),
        ) => match started {
            Err(e) => ends_with_error(next, action, "spawning zfs receive"@, e.text()),
            Ok(_) => {
                &&& action is TakeIn
                &&& match next {
                    ServerState::Receiving { target: u } => u@ == target@,
                    _ => false,
                }
            },
        },
        (ServerState::Receiving { target }, ServerEvent::StreamEnded(ended)) => {
            &&& action is FinishReceiver
            &&& match next {
                ServerState::AwaitExit { target: u, ended: how } => u@ == target@ && how == (
                match ended {
                    Ok(true) => StreamEnd::Cancelled,
                    Ok(false) => StreamEnd::Complete,
                    Err(_) => StreamEnd::Broken,
                }),
                _ => false,
            }
        },
        (
            ServerState::AwaitExit { target, ended },
            ServerEvent::ReceiverFinished(exit),
        ) => match ended {
            StreamEnd::Cancelled => notes_then(next, action, target@, None),
            StreamEnd::Broken => notes_then(next, action, target@, Some(broken_message(exit))),
            StreamEnd::Complete => match exit {
                Ok(_) => {
                    &&& next is Closed
                    &&& match action {
                        ServerAction::HoldAndClose { target: u, replies } => u@ == target@
                            && replies@.len() == 1 && replies@[0].says(true, "ok"@),
                        _ => false,
                    }
                },
                Err(e) => notes_then(next, action, target@, Some(e.text())),
            },
        },
        (ServerState::AwaitNote { conclusion, .. }, ServerEvent::Noted(noted)) => match noted {
            Err(e) => {
                &&& next is Closed
                &&& match action {
                    ServerAction::Close { replies, result: Err(err) } => replies@.len() == 0 && err@
                        == e@,
                    _ => false,
                }
            },
            Ok(_) => match conclusion {
                Conclusion::Silent => ends_quietly(next, action),
                Conclusion::Tell(message) => {
                    &&& next is Closed
                    &&& match action {
                        ServerAction::Close { replies, result: Ok(_) } => replies@.len() == 1
                            && replies@[0].says(false, message@),
                        _ => false,
                    }
                },
            },
        },
        _ => false,
    }
}

fn failed(what: &str, err: &str) -> (r: (ServerState, ServerAction))
    ensures
        ends_with_error(r.0, r.1, what@, err@),
{
    let text = what.to_owned().concat(": ").concat(err);
    (ServerState::Closed, ServerAction::Close { replies: Vec::new(), result: Err(text) })
}

fn act_on(answer: Admission) -> (r: (ServerState, ServerAction))
    ensures
        acts_on(answer, r.0, r.1),
{
    let Admission { replies, outcome } = answer;
    match outcome {
        Outcome::Admit(result) => {
            let target = result.target.clone();
            (
                ServerState::AwaitAnswer { target: result.target, opts: result.zfs_receive_opts },
                ServerAction::Ask { replies, target },
            )
        },
        Outcome::Close => (ServerState::Closed, ServerAction::Close { replies, result: Ok(()) }),
    }
}

/// Runs the server's side of a session by one step: what an event leads to. A session
/// begins in `AwaitHello`.
pub fn run_server_on(
    config: &ServerConfig,
    permitted_clients: &[&str],
    state: ServerState,
    event: ServerEvent,
) -> (r: (ServerState, ServerAction))
    requires
        can_happen(state, event),
    ensures
        server_step(*config, str_texts(permitted_clients@), state, event, r.0, r.1),
{
    match (state, event) {
        (ServerState::AwaitHello, ServerEvent::HelloRead(read)) => match read {
            Err(e) => failed("reading ClientHello", e.message().as_str()),
            Ok(request) => {
                let answer = server_handshake(config, permitted_clients, request);
                act_on(answer)
            },
        },
        (ServerState::AwaitAnswer { target, opts }, ServerEvent::Answered(token, snapshots)) => {
            match server_hello(token, snapshots) {
                Ok(hello) => (
                    ServerState::AwaitReady { target, opts },
                    ServerAction::SendHello(hello),
                ),
                Err(e) => (
                    ServerState::Closed,
                    ServerAction::Close { replies: Vec::new(), result: Err(e) },
                ),
            }
        },
        (ServerState::AwaitReady { target, opts }, ServerEvent::ReadyRead(read)) => match read {
            Err(e) => failed("reading ClientReady", e.message().as_str()),
            Ok(ready) => if ready.ok {
                let receive = ZfsCommand::Receive { dataset: target.clone(), opts };
                (ServerState::AwaitReceiver { target }, ServerAction::StartReceiver(receive))
            } else {
                (
                    ServerState::Closed,
                    ServerAction::Close { replies: Vec::new(), result: Ok(()) },
                )
            },
        },
        (
            ServerState::AwaitReceiver { target },
            ServerEvent::ReceiverStarted(started),
        ) => match started {
            Err(e) => failed("spawning zfs receive", e.message().as_str()),
            Ok(_) => (ServerState::Receiving { target }, ServerAction::TakeIn),
        },
        (ServerState::Receiving { target }, ServerEvent::StreamEnded(ended)) => {
            let ended = match ended {
                Ok(cancelled) => if cancelled {
                    StreamEnd::Cancelled
                } else {
                    StreamEnd::Complete
                },
                Err(_) => StreamEnd::Broken,
            };
            (ServerState::AwaitExit { target, ended }, ServerAction::FinishReceiver)
        },
        (ServerState::AwaitExit { target, ended }, ServerEvent::ReceiverFinished(exit)) => {
            let conclusion = match ended {
                StreamEnd::Cancelled => Conclusion::Silent,
                StreamEnd::Broken => match exit {
                    Ok(_) => Conclusion::Tell("stream error".to_owned()),
                    Err(e) => Conclusion::Tell(e.message()),
                },
                StreamEnd::Complete => match exit {
                    Ok(_) => {
                        let mut replies: Vec<ServerStatus> = Vec::new();
                        replies.push(ServerStatus { ok: true, message: "ok".to_owned() });
                        return (ServerState::Closed, ServerAction::HoldAndClose { target, replies });
                    },
                    Err(e) => Conclusion::Tell(e.message()),
                },
            };
            let noted = target.clone();
            (ServerState::AwaitNote { target, conclusion }, ServerAction::Note { target: noted })
        },
        (ServerState::AwaitNote { conclusion, .. }, ServerEvent::Noted(noted)) => {
            let mut replies: Vec<ServerStatus> = Vec::new();
            let result = match noted {
                Err(e) => Err(e),
                Ok(_) => {
                    match conclusion {
                        Conclusion::Silent => {},
                        Conclusion::Tell(message) => {
                            replies.push(ServerStatus { ok: false, message });
                        },
                    }
                    Ok(())
                },
            };
            (ServerState::Closed, ServerAction::Close { replies, result })
        },
        (state, _) => (state, ServerAction::FinishReceiver),
    }
}

// ---------------------------------------------------------------------------
// After the stream
// ---------------------------------------------------------------------------

/// The hold on what was received.
pub const RECEIVED_TAG: &'static str = "zrb:received";

/// Whether `r` is how the hold on what was received moves, when the pool gave these names
/// and the hold is on these.
pub open spec fn holds_the_newest(
    raw: Result<Vec<String>, ClientError>,
    held: Result<Vec<String>, ClientError>,
    r: Option<HoldMove>,
) -> bool {
    match raw {
        Err(_) => r is None,
        Ok(names) => match head_of(texts(names@)) {
            None => r is None,
            Some(newest) => r is Some && moves_hold(
                r->0,
                newest,
                RECEIVED_TAG@,
                match held {
                    Ok(v) => texts(v@),
                    Err(_) => seq![],
                },
            ),
        },
    }
}

/// How the hold on what was received moves to the newest managed snapshot of the
/// dataset. `raw` is what `zfs::client::list_snapshots` gave, and `held` what
/// `zfs::client::find_held_snapshots_in` gave for the managed ones among them. There
/// is nothing to move where the snapshots are not known or there are none.
pub fn place_server_transfer_hold(
    raw: Result<Vec<String>, ClientError>,
    held: Result<Vec<String>, ClientError>,
) -> (r: Option<HoldMove>)
    ensures
        holds_the_newest(raw, held, r),
{
    match raw {
        Err(_) => None,
        Ok(names) => {
            let snaps = list(names.as_slice());
            let n: usize = snaps.len();
            if n == 0 {
                return None;
            }
            assert(texts(snaps@).last() == snaps@[n - 1]@);
            Some(move_hold(snaps[n - 1].as_str(), RECEIVED_TAG, held))
        },
    }
}

/// Whether `r` is what to run so that an interrupted transfer to `dataset` is noted.
pub open spec fn notes_when_needed(
    dataset: Seq<char>,
    token: Result<Option<String>, ClientError>,
    since: Result<Option<Timestamp>, ClientError>,
    now: Timestamp,
    r: Result<Option<ZfsCommand>, String>,
) -> bool {
    match token {
        Err(e) => r is Err && r->Err_0@ == in_context(
            "checking resume token for annotation"@,
            e.text(),
        ),
        Ok(None) => r is Ok && r->Ok_0 is None,
        Ok(Some(_)) => match since {
            Err(e) => r is Err && r->Err_0@ == in_context(
                "checking resume-since for annotation"@,
                e.text(),
            ),
            Ok(Some(_)) => r is Ok && r->Ok_0 is None,
            Ok(None) => match r {
                Ok(Some(ZfsCommand::SetResumeSince { dataset: d, since: s })) => d@ == dataset && s
                    == now,
                _ => false,
            },
        },
    }
}

/// What to run so that an interrupted transfer is noted: nothing where there is none
/// or it is noted already. `token` is what `zfs::client::get_resume_token` gave, and
/// `since` what `zfs::client::get_resume_since` gave, which counts only where there
/// is a token.
pub fn annotate_resume_if_needed(
    dataset: &str,
    token: Result<Option<String>, ClientError>,
    since: Result<Option<Timestamp>, ClientError>,
    now: Timestamp,
) -> (r: Result<Option<ZfsCommand>, String>)
    ensures
        notes_when_needed(dataset@, token, since, now, r),
{
    match token {
        Err(e) => Err(
            "checking resume token for annotation".to_owned().concat(": ").concat(
                e.message().as_str(),
            ),
        ),
        Ok(None) => Ok(None),
        Ok(Some(_)) => match since {
            Err(e) => Err(
                "checking resume-since for annotation".to_owned().concat(": ").concat(
                    e.message().as_str(),
                ),
            ),
            Ok(Some(_)) => Ok(None),
            Ok(None) => Ok(
                Some(ZfsCommand::SetResumeSince { dataset: dataset.to_owned(), since: now }),
            ),
        },
    }
}

// ---------------------------------------------------------------------------
// Laws
// ---------------------------------------------------------------------------

/// One step of a session.
pub struct Step {
    pub before: ServerState,
    pub event: ServerEvent,
    pub after: ServerState,
    pub action: ServerAction,
}

/// Whether `steps` is how a session went from its start on.
pub open spec fn is_run(config: ServerConfig, permitted: Seq<Seq<char>>, steps: Seq<Step>) -> bool {
    &&& steps.len() > 0 ==> steps[0].before is AwaitHello
    &&& forall|i: int|
        #![trigger steps[i]]
        0 <= i < steps.len() ==> server_step(
            config,
            permitted,
            steps[i].before,
            steps[i].event,
            steps[i].after,
            steps[i].action,
        )
    &&& forall|i: int|
        #![trigger steps[i]]
        0 < i < steps.len() ==> steps[i].before == steps[i - 1].after
}

/// Whether step `i` is one in which an admissible request for `target` was read.
pub open spec fn admitted_at(
    config: ServerConfig,
    permitted: Seq<Seq<char>>,
    steps: Seq<Step>,
    i: int,
    target: Seq<char>,
) -> bool {
    match steps[i].event {
        ServerEvent::HelloRead(Ok(request)) => admissible(config, permitted, request)
            && request.target@ == target,
        _ => false,
    }
}

/// The dataset that a session in this state may receive to.
spec fn target_of(state: ServerState) -> Option<Seq<char>> {
    match state {
        ServerState::AwaitAnswer { target, .. } => Some(target@),
        ServerState::AwaitReady { target, .. } => Some(target@),
        ServerState::AwaitReceiver { target } => Some(target@),
        ServerState::Receiving { target } => Some(target@),
        ServerState::AwaitExit { target, .. } => Some(target@),
        ServerState::AwaitNote { target, .. } => Some(target@),
        _ => None,
    }
}

proof fn lemma_target_was_admitted(
    config: ServerConfig,
    permitted: Seq<Seq<char>>,
    steps: Seq<Step>,
    i: int,
)
    requires
        is_run(config, permitted, steps),
        0 <= i < steps.len(),
        target_of(steps[i].before) is Some,
    ensures
        exists|j: int|
            0 <= j < i && #[trigger] admitted_at(
                config,
                permitted,
                steps,
                j,
                target_of(steps[i].before)->0,
            ),
    decreases i,
{
    let target = target_of(steps[i].before)->0;
    let p = steps[i - 1];
    assert(i > 0);
    assert(steps[i].before == p.after);
    assert(server_step(config, permitted, p.before, p.event, p.after, p.action));
    if target_of(p.before) is Some {
        lemma_target_was_admitted(config, permitted, steps, i - 1);
        assert(target_of(p.before) == Some(target));
        let j = choose|j: int|
            0 <= j < i - 1 && #[trigger] admitted_at(config, permitted, steps, j, target);
        assert(admitted_at(config, permitted, steps, j, target));
    } else {
        assert(p.event is HelloRead);
        let request = p.event->HelloRead_0->Ok_0;
        let answer = choose|answer: Admission|
            answers(config, permitted, request, answer) && acts_on(answer, p.after, p.action);
        only_admissible_requests_are_admitted(config, permitted, request, answer);
        assert(admitted_at(config, permitted, steps, i - 1, target));
    }
}

/// However a session goes, `zfs receive` is started only for a dataset that an
/// admissible request asked for, and only behind a client that said it is ready.
pub proof fn only_admitted_targets_are_received(
    config: ServerConfig,
    permitted: Seq<Seq<char>>,
    steps: Seq<Step>,
    i: int,
)
    requires
        is_run(config, permitted, steps),
        0 <= i < steps.len(),
        steps[i].action is StartReceiver,
    ensures
        match steps[i].action {
            ServerAction::StartReceiver(ZfsCommand::Receive { dataset, .. }) => exists|j: int|
                0 <= j < i && #[trigger] admitted_at(config, permitted, steps, j, dataset@),
            _ => false,
        },
        match steps[i].event {
            ServerEvent::ReadyRead(Ok(ready)) => ready.ok,
            _ => false,
        },
{
    let p = steps[i];
    assert(server_step(config, permitted, p.before, p.event, p.after, p.action));
    if p.before is AwaitHello {
        let request = p.event->HelloRead_0->Ok_0;
        let answer = choose|answer: Admission|
            answers(config, permitted, request, answer) && acts_on(answer, p.after, p.action);
        assert(acts_on(answer, p.after, p.action));
    }
    lemma_target_was_admitted(config, permitted, steps, i);
}

/// However a session goes, a hold is moved and an interrupted transfer noted only on a
/// dataset that an admissible request asked for.
pub proof fn only_admitted_targets_are_held_or_noted(
    config: ServerConfig,
    permitted: Seq<Seq<char>>,
    steps: Seq<Step>,
    i: int,
)
    requires
        is_run(config, permitted, steps),
        0 <= i < steps.len(),
    ensures
        match steps[i].action {
            ServerAction::HoldAndClose { target, .. } => exists|j: int|
                0 <= j < i && #[trigger] admitted_at(config, permitted, steps, j, target@),
            ServerAction::Note { target } => exists|j: int|
                0 <= j < i && #[trigger] admitted_at(config, permitted, steps, j, target@),
            _ => true,
        },
{
    let p = steps[i];
    assert(server_step(config, permitted, p.before, p.event, p.after, p.action));
    if p.before is AwaitHello {
        match p.event {
            ServerEvent::HelloRead(Ok(request)) => {
                let answer = choose|answer: Admission|
                    answers(config, permitted, request, answer) && acts_on(
                        answer,
                        p.after,
                        p.action,
                    );
                assert(acts_on(answer, p.after, p.action));
            },
            _ => {},
        }
    } else {
        lemma_target_was_admitted(config, permitted, steps, i);
    }
}

/// A request that is not admissible ends the session in good order, and the client is
/// told so: the last status says no.
pub proof fn turned_away_clients_are_told(
    config: ServerConfig,
    permitted: Seq<Seq<char>>,
    request: ClientHello,
    next: ServerState,
    action: ServerAction,
)
    requires
        server_step(
            config,
            permitted,
            ServerState::AwaitHello,
            ServerEvent::HelloRead(Ok(request)),
            next,
            action,
        ),
        !admissible(config, permitted, request),
    ensures
        next is Closed,
        match action {
            ServerAction::Close { replies, result } => result is Ok && replies@.len() > 0
                && !replies@.last().ok,
            _ => false,
        },
{
    let answer = choose|answer: Admission|
        answers(config, permitted, request, answer) && acts_on(answer, next, action);
    refusals_are_answered(config, permitted, request, answer);
}

/// The client is told that the transfer worked only where the stream was complete
/// and `zfs receive` took it.
pub proof fn success_is_told_of_success_alone(
    config: ServerConfig,
    permitted: Seq<Seq<char>>,
    state: ServerState,
    event: ServerEvent,
    next: ServerState,
    action: ServerAction,
)
    requires
        server_step(config, permitted, state, event, next, action),
        action is HoldAndClose,
    ensures
        match state {
            ServerState::AwaitExit { ended, .. } => ended == StreamEnd::Complete,
            _ => false,
        },
        match event {
            ServerEvent::ReceiverFinished(exit) => exit is Ok,
            _ => false,
        },
{
    if state is AwaitHello {
        let request = event->HelloRead_0->Ok_0;
        let answer = choose|answer: Admission|
            answers(config, permitted, request, answer) && acts_on(answer, next, action);
        assert(acts_on(answer, next, action));
    }
}

/// What a client says last, when it has nothing to send or cannot, closes the server
/// without a receiver.
pub proof fn last_words_close_the_server(
    session: SendSession,
    sent: SessionEvent,
    client: SendState,
    last: ClientReady,
    result: Result<u64, SendError>,
    config: ServerConfig,
    permitted: Seq<Seq<char>>,
    state: ServerState,
    next: ServerState,
    action: ServerAction,
)
    requires
        session_step(
            session,
            sent,
            client,
            SessionAction::Finish { last: Some(last), result },
        ),
        state is AwaitReady,
        server_step(config, permitted, state, ServerEvent::ReadyRead(Ok(last)), next, action),
    ensures
        ends_quietly(next, action),
{
}

/// A client that is about to send makes the server start its receiver.
pub proof fn ready_client_starts_the_receiver(
    session: SendSession,
    sent: SessionEvent,
    client: SendState,
    ready: ClientReady,
    config: ServerConfig,
    permitted: Seq<Seq<char>>,
    state: ServerState,
    next: ServerState,
    action: ServerAction,
)
    requires
        session_step(session, sent, client, SessionAction::WriteReady(ready)),
        state is AwaitReady,
        server_step(config, permitted, state, ServerEvent::ReadyRead(Ok(ready)), next, action),
    ensures
        next is AwaitReceiver,
        action is StartReceiver,
{
}

} // verus!
