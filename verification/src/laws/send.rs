//! Sending.

use crate::VERSION;
use crate::config::{RemoteConfig, SourceConfig};
use crate::laws::naming::listings_hold_the_managed_names;
use crate::laws::server::{heads_are_the_newest, is_newest};
use crate::laws::text::{lookup_finds_the_first, named, names_are_unique};
use crate::ops::list::listing;
use crate::ops::send::{
    acts_on, are_tasks, base_is_the_shared_snapshot, begins, collects, comes_of, decides,
    estimates_resume, estimates_send,    first_unknown, has_failed, head_name, is_chosen, is_run, moves_hold, other_than, plans,
    receive_error, resumes, session_step, snapshot_part, sums_up, sums_up_all, tag_for, HoldMove,
    RemoteOutcome, SendError, SendPlan, SendSession, SendState, SessionAction, SessionEvent, Step,
    Task, TransferDecision,
};
use crate::protocol::codec::{ClientHello, CodecError, ServerHello};
use crate::snapshot::naming::stamp;
use crate::text::{lemma_cut, lemma_cut_join, lookup, occurs, occurs_at, opt_text, str_texts, texts};
use crate::tui::SendEvent;
use crate::zfs::client::{lossy_text, ClientError, CommandOutput, ZfsCommand};
use crate::zfs::estimator::{size_text, size_value};
use vstd::prelude::*;
use vstd::string::*;

verus! {

// ---------------------------------------------------------------------------
// What to send
// ---------------------------------------------------------------------------

/// A base is the local snapshot that the remote has as its head: the two have the same
/// name behind the `@`. Nothing is sent only where the head has the name of the latest
/// snapshot; all is sent only where the remote has no head; a token is taken up as it
/// is; and an error means that the head's name is on no local snapshot.
#[verifier::rlimit(40)]
pub proof fn transfers_follow_the_remotes_head(
    hello: ServerHello,
    local: Seq<Seq<char>>,
    latest: Seq<char>,
    decision: Result<TransferDecision, String>,
)
    requires
        decides(hello, local, latest, decision),
    ensures
        match decision {
            Ok(TransferDecision::IncrementalSend { base }) => {
                &&& hello.head is Some
                &&& hello.resume_token is None
                &&& local.contains(base@)
                &&& forall|name: Seq<char>| #[trigger]
                    named(hello.head->0@, name) ==> named(base@, name) && !named(latest, name)
                &&& !hello.head->0@.contains('@') ==> named(base@, seq![])
            },
            Ok(TransferDecision::AlreadyUpToDate) => hello.head is Some && exists|name: Seq<char>|
                #[trigger] named(hello.head->0@, name) && (named(latest, name) || (
                !latest.contains('@') && latest == name)),
            Ok(TransferDecision::FullSend) => hello.head is None && hello.resume_token is None,
            Ok(TransferDecision::ResumeSend { token }) => {
                &&& hello.resume_token is Some
                &&& hello.resume_token->0@ == token@
                &&& hello.head is Some ==> forall|name: Seq<char>| #[trigger]
                    named(hello.head->0@, name) ==> !named(latest, name)
            },
            Err(e) => {
                &&& hello.head is Some
                &&& hello.resume_token is None
                &&& forall|name: Seq<char>| #[trigger]
                    named(hello.head->0@, name) ==> occurs(e@, name) && !named(latest, name)
                        && forall|i: int|
                        0 <= i < local.len() ==> !named(#[trigger] local[i], name)
            },
        },
{
    if let Some(head) = hello.head {
        let h = head@;
        lemma_cut(h, '@');
        lemma_cut(latest, '@');
        assert forall|name: Seq<char>| #[trigger] named(h, name) implies head_name(h) == name
            && snapshot_part(h) == Some(name) by {
            names_are_unique(h, name);
        }
        assert forall|name: Seq<char>| #[trigger] named(latest, name) implies snapshot_part(latest)
            == Some(name) by {
            names_are_unique(latest, name);
        }
        names_are_unique(h, head_name(h));
        names_are_unique(latest, head_name(h));
        base_is_the_shared_snapshot(local, head_name(h));
        match decision {
            Ok(TransferDecision::IncrementalSend { base }) => {
                names_are_unique(base@, head_name(h));
                reveal_strlit("");
                assert(""@ =~= Seq::<char>::empty());
            },
            Ok(TransferDecision::AlreadyUpToDate) => {
                assert(named(h, head_name(h)));
            },
            Err(e) => {
                assert forall|name: Seq<char>| #[trigger] named(h, name) implies occurs(e@, name)
                    && forall|i: int|
                    0 <= i < local.len() ==> !named(#[trigger] local[i], name) by {
                    let front =
                        "histories have diverged: the Remote's most recent snapshot `"@;
                    let n = front.len() as int;
                    assert(e@.subrange(n, n + name.len()) =~= name);
                    assert(occurs_at(e@, name, n));
                    assert forall|i: int| 0 <= i < local.len() implies !named(
                        #[trigger] local[i],
                        name,
                    ) by {
                        names_are_unique(local[i], name);
                    }
                }
            },
            _ => {},
        }
    }
}

/// There is nothing to do wherever the head has the latest snapshot's name. Else a token
/// is taken up wherever there is one; else all is sent wherever there is no head; else
/// there is an increment wherever a local snapshot has the head's name.
pub proof fn every_head_has_its_transfer(
    hello: ServerHello,
    local: Seq<Seq<char>>,
    latest: Seq<char>,
    decision: Result<TransferDecision, String>,
)
    requires
        decides(hello, local, latest, decision),
        latest.contains('@'),
    ensures
        hello.head is Some && (exists|name: Seq<char>| #[trigger]
            named(hello.head->0@, name) && named(latest, name)) ==> decision is Ok
            && decision->Ok_0 is AlreadyUpToDate,
        !(hello.head is Some && exists|name: Seq<char>| #[trigger]
            named(hello.head->0@, name) && named(latest, name)) ==> {
            &&& hello.resume_token is Some ==> decision is Ok && decision->Ok_0 is ResumeSend
            &&& hello.resume_token is None && hello.head is None ==> decision is Ok
                && decision->Ok_0 is FullSend
            &&& hello.resume_token is None && hello.head is Some && (exists|i: int,
                name: Seq<char>|
                0 <= i < local.len() && #[trigger] named(hello.head->0@, name) && named(
                    #[trigger] local[i],
                    name,
                )) ==> decision is Ok && decision->Ok_0 is IncrementalSend
        },
{
    transfers_follow_the_remotes_head(hello, local, latest, decision);
}

/// What a session starts once it has heard the server's hello: a stream of the latest
/// snapshot, from the local one that has the name of the remote's head, or from the
/// beginning where there is no head; or what a token stands for. Where nothing is to be
/// sent, or nothing can be, the session ends.
#[verifier::rlimit(40)]
pub proof fn stream_starts_from_the_shared_snapshot(
    session: SendSession,
    hello: ServerHello,
    next: SendState,
    action: SessionAction,
)
    requires
        session.state is AwaitHello,
        session_step(session, SessionEvent::HelloRead(Ok(hello)), next, action),
    ensures
        match action {
            SessionAction::StartSource {
                stream: ZfsCommand::Send { base, snapshot, opts },
                estimate: ZfsCommand::EstimateSend { base: b, snapshot: s, opts: o },
            } => {
                &&& snapshot@ == session.latest@ && s@ == session.latest@
                &&& opts@ == session.opts@ && o@ == session.opts@
                &&& hello.resume_token is None
                &&& match (base, b) {
                    (Some(x), Some(y)) => {
                        &&& x@ == y@
                        &&& hello.head is Some
                        &&& texts(session.local_snaps@).contains(x@)
                        &&& forall|name: Seq<char>| #[trigger]
                            named(hello.head->0@, name) ==> named(x@, name)
                    },
                    (None, None) => hello.head is None,
                    _ => false,
                }
            },
            SessionAction::StartSource {
                stream: ZfsCommand::SendResume { token, opts },
                estimate: ZfsCommand::EstimateResume { token: t, opts: o },
            } => {
                &&& hello.resume_token is Some
                &&& token@ == hello.resume_token->0@ && t@ == hello.resume_token->0@
                &&& opts@ == session.opts@ && o@ == session.opts@
            },
            SessionAction::Finish { last: Some(ready), result: Ok(bytes) } => {
                &&& next is Finished
                &&& bytes == 0 && !ready.ok
                &&& hello.head is Some
                &&& session.latest@.contains('@') ==> exists|name: Seq<char>| #[trigger]
                    named(hello.head->0@, name) && named(session.latest@, name)
            },
            SessionAction::Finish { last: None, result: Err(e) } => {
                &&& next is Finished
                &&& !e.cancelled
                &&& hello.head is Some && hello.resume_token is None
                &&& forall|name: Seq<char>, i: int|
                    0 <= i < session.local_snaps@.len() && #[trigger] named(hello.head->0@, name)
                        ==> !named((#[trigger] session.local_snaps@[i])@, name)
            },
            _ => false,
        },
{
    let local = texts(session.local_snaps@);
    let decision = choose|decision: Result<TransferDecision, String>|
        decides(hello, local, session.latest@, decision) && acts_on(
            session,
            decision,
            next,
            action,
        );
    transfers_follow_the_remotes_head(hello, local, session.latest@, decision);
    if decision is Err {
        assert forall|name: Seq<char>, i: int|
            0 <= i < session.local_snaps@.len() && #[trigger] named(
                hello.head->0@,
                name,
            ) implies !named((#[trigger] session.local_snaps@[i])@, name) by {
            assert(local[i] == session.local_snaps@[i]@);
        }
    }
}

// ---------------------------------------------------------------------------
// How a session ends
// ---------------------------------------------------------------------------

/// What goes wrong in a session ends it with an error, and only what the user called off
/// counts as that. A stream that broke leaves one thing to do: to hear what the server
/// says of it.
#[verifier::rlimit(40)]
pub proof fn failures_end_the_session(
    session: SendSession,
    event: SessionEvent,
    next: SendState,
    action: SessionAction,
)
    requires
        session_step(session, event, next, action),
    ensures
        match event {
            SessionEvent::HelloWritten(Ok(_)) => action is ReadVersion,
            SessionEvent::VersionRead(Ok(status)) => action is ReadHello <==> status.ok,
            SessionEvent::SourceStarted(Ok(_)) => action is WriteReady && action->WriteReady_0.ok,
            SessionEvent::ReadyWritten(Ok(_)) => action is Stream,
            SessionEvent::ChunkSent(bytes) => action == (SessionAction::Report {
                bytes_sent: bytes,
            }),
            SessionEvent::StreamEnded(Ok(_)) => action is ReadStatus,
            SessionEvent::StreamEnded(Err(e)) => action is ReadStatus <==> !(e is Cancelled),
            SessionEvent::StatusRead(Ok(status)) => action is Finish && (!status.ok
                ==> action->result is Err && occurs(
                action->result->Err_0.message@,
                status.message@,
            )),
            SessionEvent::StatusRead(Err(_)) => action is Finish && action->result is Err,
            SessionEvent::HelloRead(Ok(_)) => action is StartSource || action is Finish,
            _ => action is Finish && action->result is Err,
        },
        match event {
            SessionEvent::VersionRead(Ok(status)) => !status.ok ==> action is Finish
                && action->result is Err && occurs(
                action->result->Err_0.message@,
                status.message@,
            ),
            _ => true,
        },
        action is Finish <==> next is Finished,
        action is Finish && action->result is Err ==> (action->result->Err_0.cancelled <==> (event
            matches SessionEvent::StreamEnded(Err(CodecError::Cancelled)))),
{
    match event {
        SessionEvent::StatusRead(Ok(status)) => {
            if !status.ok {
                let m = action->result->Err_0.message@;
                let front = "remote error: "@;
                let n = front.len() as int;
                assert(m == receive_error(status.message@));
                assert(m.subrange(n, n + status.message@.len()) =~= status.message@);
                assert(occurs_at(m, status.message@, n));
            }
        },
        SessionEvent::VersionRead(Ok(status)) => {
            if !status.ok {
                let m = action->result->Err_0.message@;
                let front = "server rejected connection: "@;
                let n = front.len() as int;
                assert(m.subrange(n, n + status.message@.len()) =~= status.message@);
                assert(occurs_at(m, status.message@, n));
            }
        },
        SessionEvent::HelloRead(Ok(hello)) => {
            let decision = choose|decision: Result<TransferDecision, String>|
                decides(hello, texts(session.local_snaps@), session.latest@, decision) && acts_on(
                    session,
                    decision,
                    next,
                    action,
                );
            assert(acts_on(session, decision, next, action));
        },
        _ => {},
    }
}

/// An error that ends a session says what went wrong, and the server is told where the
/// source could not be started.
pub proof fn session_errors_say_why(
    session: SendSession,
    event: SessionEvent,
    next: SendState,
    action: SessionAction,
)
    requires
        session_step(session, event, next, action),
    ensures
        match (session.state, event) {
            (_, SessionEvent::HelloWritten(Err(e))) => cause_of(action) == Some(e.text()),
            (_, SessionEvent::VersionRead(Err(e))) => cause_of(action) == Some(e.text()),
            (_, SessionEvent::HelloRead(Err(e))) => cause_of(action) == Some(e.text()),
            (_, SessionEvent::ReadyWritten(Err(e))) => cause_of(action) == Some(e.text()),
            (_, SessionEvent::SourceStarted(Err(e))) => cause_of(action) == Some(e.text())
                && action->last is Some && !action->last->0.ok,
            (_, SessionEvent::StreamEnded(Err(CodecError::Cancelled))) => cause_of(action) is Some,
            (SendState::AwaitStatus { .. }, SessionEvent::StatusRead(Err(e))) => cause_of(action)
                == Some(e.text()),
            (SendState::AwaitReason { error }, SessionEvent::StatusRead(read)) => action is Finish
                && action->result is Err && (read is Err || read->Ok_0.ok ==> cause_of(action)
                == Some(error.text())),
            _ => true,
        },
{
}

/// Why a session ended with an error, beside what failed.
pub open spec fn cause_of(action: SessionAction) -> Option<Seq<char>> {
    match action {
        SessionAction::Finish { result: Err(e), .. } => opt_text(e.cause),
        _ => None,
    }
}

/// Whether in step `i` the stream was through.
pub open spec fn through_at(steps: Seq<Step>, i: int) -> bool {
    steps[i].event matches SessionEvent::StreamEnded(Ok(_))
}

/// Whether in step `i` a chunk was through.
pub open spec fn chunk_at(steps: Seq<Step>, i: int) -> bool {
    steps[i].event is ChunkSent
}

/// Whether `bytes` is the count that the last chunk before step `i` gave.
pub open spec fn counted(steps: Seq<Step>, i: int, bytes: u64) -> bool {
    ||| bytes == 0 && forall|k: int| 0 <= k < i ==> !#[trigger] chunk_at(steps, k)
    ||| exists|k: int|
        0 <= k < i && steps[k].event == (SessionEvent::ChunkSent(bytes)) && #[trigger] chunk_at(
            steps,
            k,
        ) && forall|m: int| k < m < i ==> !#[trigger] chunk_at(steps, m)
}

/// What the states of a session remember.
spec fn remembered(steps: Seq<Step>, i: int, state: SendState) -> bool {
    match state {
        SendState::Streaming { bytes_sent } => counted(steps, i, bytes_sent),
        SendState::AwaitStatus { bytes_sent } => counted(steps, i, bytes_sent) && exists|j: int|
            0 <= j < i && #[trigger] through_at(steps, j),
        SendState::AwaitReason { .. } => true,
        _ => forall|k: int| 0 <= k < i ==> !#[trigger] chunk_at(steps, k),
    }
}

proof fn lemma_counted_on(steps: Seq<Step>, i: int, bytes: u64)
    requires
        0 <= i < steps.len(),
        !chunk_at(steps, i),
        counted(steps, i, bytes),
    ensures
        counted(steps, i + 1, bytes),
{
    if !(bytes == 0 && forall|k: int| 0 <= k < i ==> !#[trigger] chunk_at(steps, k)) {
        let k = choose|k: int|
            0 <= k < i && steps[k].event == (SessionEvent::ChunkSent(bytes)) && #[trigger] chunk_at(
                steps,
                k,
            ) && forall|m: int| k < m < i ==> !#[trigger] chunk_at(steps, m);
        assert(chunk_at(steps, k));
    }
}

proof fn lemma_counted_anew(steps: Seq<Step>, i: int, bytes: u64)
    requires
        0 <= i < steps.len(),
        steps[i].event == (SessionEvent::ChunkSent(bytes)),
    ensures
        counted(steps, i + 1, bytes),
{
    assert(chunk_at(steps, i));
}

proof fn lemma_hello_starts_or_ends(step: Step)
    requires
        session_step(step.before, step.event, step.after.state, step.action),
        step.event matches SessionEvent::HelloRead(Ok(_)),
    ensures
        step.after.state is AwaitSource || step.after.state is Finished,
{
    let hello = step.event->HelloRead_0->Ok_0;
    let decision = choose|decision: Result<TransferDecision, String>|
        decides(hello, texts(step.before.local_snaps@), step.before.latest@, decision) && acts_on(
            step.before,
            decision,
            step.after.state,
            step.action,
        );
    assert(acts_on(step.before, decision, step.after.state, step.action));
}

#[verifier::rlimit(40)]
proof fn lemma_remembered(steps: Seq<Step>, i: int)
    requires
        is_run(steps),
        0 <= i < steps.len(),
        !(steps[i].before.state is Finished),
    ensures
        remembered(steps, i, steps[i].before.state),
    decreases i,
{
    if i > 0 {
        let p = steps[i - 1];
        assert(session_step(p.before, p.event, p.after.state, p.action));
        assert(steps[i].before == p.after);
        lemma_remembered(steps, i - 1);
        if p.event matches SessionEvent::HelloRead(Ok(_)) {
            lemma_hello_starts_or_ends(p);
        }
        match p.after.state {
            SendState::Streaming { bytes_sent } => {
                if p.event is ChunkSent {
                    lemma_counted_anew(steps, i - 1, bytes_sent);
                } else {
                    assert(!chunk_at(steps, i - 1));
                }
            },
            SendState::AwaitStatus { bytes_sent } => {
                assert(through_at(steps, i - 1));
                assert(!chunk_at(steps, i - 1));
                lemma_counted_on(steps, i - 1, bytes_sent);
            },
            _ => {
                assert(!chunk_at(steps, i - 1));
            },
        }
    }
}

/// A session ends well only where the remote had the latest snapshot already, or where
/// the stream was through and the server then said that it is well; it then counts the
/// bytes that the last chunk gave.
pub proof fn success_is_the_servers_word(steps: Seq<Step>, i: int, bytes: u64)
    requires
        is_run(steps),
        0 <= i < steps.len(),
        steps[i].action matches SessionAction::Finish { result: Ok(b), .. } && b == bytes,
    ensures
        match steps[i].event {
            SessionEvent::HelloRead(Ok(hello)) => bytes == 0 && hello.head is Some && (
            steps[i].before.latest@.contains('@') ==> exists|name: Seq<char>| #[trigger]
                named(hello.head->0@, name) && named(steps[i].before.latest@, name)),
            SessionEvent::StatusRead(Ok(status)) => status.ok && counted(steps, i, bytes)
                && exists|j: int| 0 <= j < i && #[trigger] through_at(steps, j),
            _ => false,
        },
{
    let p = steps[i];
    assert(session_step(p.before, p.event, p.after.state, p.action));
    lemma_remembered(steps, i);
    if let SessionEvent::HelloRead(Ok(hello)) = p.event {
        stream_starts_from_the_shared_snapshot(p.before, hello, p.after.state, p.action);
    }
}

/// Once the stream was through, a server that says it is well makes the session end well.
pub proof fn the_servers_word_is_success(steps: Seq<Step>, i: int)
    requires
        is_run(steps),
        0 < i < steps.len(),
        through_at(steps, i - 1),
        steps[i].event matches SessionEvent::StatusRead(Ok(status)) && status.ok,
    ensures
        steps[i].action matches SessionAction::Finish { result: Ok(_), .. },
{
    let q = steps[i - 1];
    let p = steps[i];
    assert(session_step(q.before, q.event, q.after.state, q.action));
    assert(session_step(p.before, p.event, p.after.state, p.action));
    assert(p.before == q.after);
}

/// What is held for a remote is the snapshot that was sent to it, and there is something
/// to hold exactly where bytes were sent. What is reported names dataset and remote, and
/// says what came of it.
pub proof fn what_was_sent_is_held_and_reported(
    latest: Seq<char>,
    remote_name: Seq<char>,
    elapsed: u64,
    result: Result<u64, SendError>,
    outcome: RemoteOutcome,
    dataset: Seq<char>,
    name: Seq<char>,
)
    requires
        comes_of(latest, remote_name, elapsed, result, outcome),
        !dataset.contains('@'),
        latest == dataset.push('@') + name,
    ensures
        outcome.hold is Some <==> result is Ok && result->Ok_0 > 0,
        outcome.hold is Some ==> {
            &&& outcome.hold->0.snapshot@ == latest
            &&& outcome.hold->0.dataset@ == dataset
            &&& outcome.hold->0.remote_name@ == remote_name
        },
        match outcome.event {
            SendEvent::RemoteUpToDate { remote } => result == Ok::<u64, SendError>(0) && remote@
                == dataset + " \u{2192} "@ + remote_name,
            SendEvent::RemoteCompleted { remote, elapsed_nanos, bytes } => bytes > 0 && result
                == Ok::<u64, SendError>(bytes) && elapsed_nanos == elapsed && remote@ == dataset
                + " \u{2192} "@ + remote_name,
            SendEvent::RemoteSkipped { remote } => result is Err && result->Err_0.cancelled
                && remote@ == dataset + " \u{2192} "@ + remote_name,
            SendEvent::RemoteFailed { remote, error } => result is Err && !result->Err_0.cancelled
                && error@ == result->Err_0.message@ && remote@ == dataset + " \u{2192} "@
                + remote_name,
            _ => false,
        },
{
    lemma_cut_join(dataset, '@', name);
}

// ---------------------------------------------------------------------------
// Whom to send to
// ---------------------------------------------------------------------------

/// Whether no filter is set or one of its names is `name`.
pub open spec fn wanted(filter: Option<&[&str]>, name: Seq<char>) -> bool {
    filter is None || exists|k: int| 0 <= k < filter->0@.len() && (#[trigger] filter->0@[k])@
        == name
}

/// The choice of a remote is by its name.
pub proof fn lemma_wanted(filter: Option<&[&str]>, name: Seq<char>)
    ensures
        wanted(filter, name) <==> is_chosen(filter, name),
{
    if let Some(names) = filter {
        let all = str_texts(names@);
        if all.contains(name) {
            let k = choose|k: int| 0 <= k < all.len() && all[k] == name;
            assert(names@[k]@ == name);
        }
        if exists|k: int| 0 <= k < names@.len() && (#[trigger] names@[k])@ == name {
            let k = choose|k: int| 0 <= k < names@.len() && (#[trigger] names@[k])@ == name;
            assert(all[k] == name);
        }
    }
}

#[verifier::rlimit(40)]
proof fn lemma_tasks(
    tasks: Seq<Task<'_>>,
    targets: Seq<(String, String)>,
    filter: Option<&[&str]>,
    remotes: Seq<(String, RemoteConfig)>,
)
    requires
        are_tasks(tasks, targets, filter, remotes),
    ensures
        forall|i: int|
            0 <= i < targets.len() && wanted(filter, (#[trigger] targets[i]).0@) ==> exists|t: int|
                0 <= t < tasks.len() && (#[trigger] tasks[t]).0@ == targets[i].0@ && tasks[t].2@
                    == targets[i].1@,
        forall|t: int|
            0 <= t < tasks.len() ==> wanted(filter, (#[trigger] tasks[t]).0@) && lookup(
                remotes,
                tasks[t].0@,
            ) == Some(*tasks[t].1) && exists|i: int|
                0 <= i < targets.len() && (#[trigger] targets[i]).0@ == tasks[t].0@ && targets[i].1@
                    == tasks[t].2@,
        tasks.len() <= targets.len(),
    decreases targets.len(),
{
    if targets.len() > 0 {
        let rest = targets.drop_last();
        let n = targets.len() - 1;
        lemma_wanted(filter, targets.last().0@);
        let chosen = wanted(filter, targets.last().0@);
        let some = if chosen {
            tasks.drop_last()
        } else {
            tasks
        };
        lemma_tasks(some, rest, filter, remotes);
        assert forall|i: int|
            0 <= i < targets.len() && wanted(filter, (#[trigger] targets[i]).0@) implies exists|
            t: int,
        |
            0 <= t < tasks.len() && (#[trigger] tasks[t]).0@ == targets[i].0@ && tasks[t].2@
                == targets[i].1@ by {
            if i < n {
                assert(rest[i] == targets[i]);
                let t = choose|t: int|
                    0 <= t < some.len() && (#[trigger] some[t]).0@ == rest[i].0@ && some[t].2@
                        == rest[i].1@;
                assert(tasks[t] == some[t]);
            } else {
                assert(tasks[tasks.len() - 1].0@ == targets[i].0@);
            }
        }
        assert forall|t: int| 0 <= t < tasks.len() implies wanted(filter, (#[trigger] tasks[t]).0@)
            && lookup(remotes, tasks[t].0@) == Some(*tasks[t].1) && exists|i: int|
            0 <= i < targets.len() && (#[trigger] targets[i]).0@ == tasks[t].0@ && targets[i].1@
                == tasks[t].2@ by {
            if t < some.len() {
                assert(some[t] == tasks[t]);
                let i = choose|i: int|
                    0 <= i < rest.len() && (#[trigger] rest[i]).0@ == some[t].0@ && rest[i].1@
                        == some[t].2@;
                assert(targets[i] == rest[i]);
            } else {
                assert(targets[n].0@ == tasks[t].0@);
            }
        }
    }
}

proof fn lemma_first_unknown(
    targets: Seq<(String, String)>,
    filter: Option<&[&str]>,
    remotes: Seq<(String, RemoteConfig)>,
)
    ensures
        match first_unknown(targets, filter, remotes) {
            Some(name) => wanted(filter, name) && lookup(remotes, name) is None && exists|i: int|
                0 <= i < targets.len() && (#[trigger] targets[i]).0@ == name,
            None => forall|i: int|
                0 <= i < targets.len() && wanted(filter, (#[trigger] targets[i]).0@) ==> lookup(
                    remotes,
                    targets[i].0@,
                ) is Some,
        },
    decreases targets.len(),
{
    if targets.len() > 0 {
        let rest = targets.drop_first();
        lemma_wanted(filter, targets[0].0@);
        lemma_first_unknown(rest, filter, remotes);
        match first_unknown(targets, filter, remotes) {
            Some(name) => {
                if targets[0].0@ != name {
                    let i = choose|i: int| 0 <= i < rest.len() && (#[trigger] rest[i]).0@ == name;
                    assert(targets[i + 1] == rest[i]);
                }
            },
            None => {
                assert forall|i: int|
                    0 <= i < targets.len() && wanted(
                        filter,
                        (#[trigger] targets[i]).0@,
                    ) implies lookup(remotes, targets[i].0@) is Some by {
                    if i > 0 {
                        assert(rest[i - 1] == targets[i]);
                    }
                }
            },
        }
    }
}

/// Every remote of a dataset gets its task where no filter is set or any name of the
/// filter is its name, and with the dataset's target there.
pub proof fn every_wanted_remote_gets_its_task(
    targets: Seq<(String, String)>,
    filter: Option<&[&str]>,
    remotes: Seq<(String, RemoteConfig)>,
    tasks: Vec<Task<'_>>,
    i: int,
)
    requires
        collects(targets, filter, remotes, Ok(tasks)),
        0 <= i < targets.len(),
        filter is None || exists|k: int|
            0 <= k < filter->0@.len() && (#[trigger] filter->0@[k])@ == targets[i].0@,
    ensures
        exists|t: int|
            0 <= t < tasks@.len() && (#[trigger] tasks@[t]).0@ == targets[i].0@ && tasks@[t].2@
                == targets[i].1@,
{
    lemma_tasks(tasks@, targets, filter, remotes);
    assert(wanted(filter, targets[i].0@));
}

/// A task is for a remote of the dataset that no filter shuts out: with the dataset's
/// target there, and with the configuration that stands first under its name. There are
/// no more tasks than remotes.
pub proof fn no_other_remote_gets_a_task(
    targets: Seq<(String, String)>,
    filter: Option<&[&str]>,
    remotes: Seq<(String, RemoteConfig)>,
    tasks: Vec<Task<'_>>,
    t: int,
)
    requires
        collects(targets, filter, remotes, Ok(tasks)),
        0 <= t < tasks@.len(),
    ensures
        filter is None || exists|k: int|
            0 <= k < filter->0@.len() && (#[trigger] filter->0@[k])@ == tasks@[t].0@,
        exists|i: int|
            0 <= i < targets.len() && (#[trigger] targets[i]).0@ == tasks@[t].0@ && targets[i].1@
                == tasks@[t].2@,
        exists|i: int|
            0 <= i < remotes.len() && (#[trigger] remotes[i]).0@ == tasks@[t].0@ && remotes[i].1
                == *tasks@[t].1 && forall|j: int|
                0 <= j < i ==> (#[trigger] remotes[j]).0@ != tasks@[t].0@,
        tasks@.len() <= targets.len(),
{
    lemma_tasks(tasks@, targets, filter, remotes);
    assert(wanted(filter, tasks@[t].0@));
    lookup_finds_the_first(remotes, tasks@[t].0@);
}

/// The choice of remotes fails only where a remote would get a task and has no
/// configuration, and it fails wherever there is one. The error names such a remote.
pub proof fn only_remotes_without_configuration_fail(
    targets: Seq<(String, String)>,
    filter: Option<&[&str]>,
    remotes: Seq<(String, RemoteConfig)>,
    r: Result<Vec<Task<'_>>, String>,
)
    requires
        collects(targets, filter, remotes, r),
    ensures
        r is Err <==> exists|i: int|
            0 <= i < targets.len() && wanted(filter, (#[trigger] targets[i]).0@) && forall|j: int|
                0 <= j < remotes.len() ==> (#[trigger] remotes[j]).0@ != targets[i].0@,
        r is Err ==> exists|i: int|
            0 <= i < targets.len() && occurs(r->Err_0@, (#[trigger] targets[i]).0@) && wanted(
                filter,
                targets[i].0@,
            ) && forall|j: int|
                0 <= j < remotes.len() ==> (#[trigger] remotes[j]).0@ != targets[i].0@,
{
    lemma_first_unknown(targets, filter, remotes);
    match r {
        Ok(_) => {
            assert forall|i: int|
                0 <= i < targets.len() && wanted(filter, (#[trigger] targets[i]).0@) implies !(
            forall|j: int|
                0 <= j < remotes.len() ==> (#[trigger] remotes[j]).0@ != targets[i].0@) by {
                lookup_finds_the_first(remotes, targets[i].0@);
            }
        },
        Err(e) => {
            let name = first_unknown(targets, filter, remotes)->0;
            let i = choose|i: int| 0 <= i < targets.len() && (#[trigger] targets[i]).0@ == name;
            let n = "remote '"@.len() as int;
            assert(e@.subrange(n, n + name.len()) =~= name);
            assert(occurs_at(e@, name, n));
            lookup_finds_the_first(remotes, name);
            assert(occurs(e@, targets[i].0@));
            assert(wanted(filter, targets[i].0@));
        },
    }
}

/// What is sent of a dataset is the newest managed snapshot that there is, and all managed
/// ones are known as possible bases. Every remote of the dataset that no filter shuts out
/// gets its task, with the target there. There is an error only where the snapshots are not
/// known, there is none, the dataset is not configured, or a remote is not.
#[verifier::rlimit(40)]
pub proof fn the_newest_snapshot_goes_to_every_wanted_remote(
    dataset: Seq<char>,
    raw: Result<Vec<String>, ClientError>,
    config: SourceConfig,
    filter: Option<&[&str]>,
    r: Result<SendPlan<'_>, String>,
)
    requires
        plans(dataset, raw, config, filter, r),
    ensures
        match r {
            Ok(plan) => {
                &&& raw is Ok
                &&& is_newest(texts(raw->Ok_0@), Some(plan.latest@))
                &&& forall|name: Seq<char>| #[trigger]
                    texts(plan.local_snaps@).contains(name) <==> texts(raw->Ok_0@).contains(name)
                        && stamp(name) is Some
                &&& exists|d: int|
                    0 <= d < config.datasets@.len() && (#[trigger] config.datasets@[d]).0@
                        == dataset && collects(
                        config.datasets@[d].1@,
                        filter,
                        config.remotes@,
                        Ok(plan.tasks),
                    )
            },
            Err(_) => raw is Err || (forall|i: int|
                0 <= i < raw->Ok_0@.len() ==> stamp((#[trigger] raw->Ok_0@[i])@) is None) || (
            forall|d: int|
                0 <= d < config.datasets@.len() ==> (#[trigger] config.datasets@[d]).0@ != dataset)
                || exists|d: int, t: int|
                0 <= d < config.datasets@.len() && (#[trigger] config.datasets@[d]).0@ == dataset
                    && 0 <= t < config.datasets@[d].1@.len() && wanted(
                    filter,
                    (#[trigger] config.datasets@[d].1@[t]).0@,
                ) && forall|j: int|
                    0 <= j < config.remotes@.len() ==> (#[trigger] config.remotes@[j]).0@
                        != config.datasets@[d].1@[t].0@,
        },
{
    broadcast use vstd::seq_lib::group_to_multiset_ensures;

    lookup_finds_the_first(config.datasets@, dataset);
    if let Ok(names) = raw {
        let all = texts(names@);
        let local = listing(all);
        heads_are_the_newest(all);
        assert forall|name: Seq<char>| #[trigger] local.contains(name) <==> all.contains(name)
            && stamp(name) is Some by {
            listings_hold_the_managed_names(all, name);
        }
        if local.len() == 0 {
            assert forall|i: int| 0 <= i < names@.len() implies stamp(
                (#[trigger] names@[i])@,
            ) is None by {
                assert(all[i] == names@[i]@);
            }
        } else if let Some(targets) = lookup(config.datasets@, dataset) {
            let d = choose|d: int|
                0 <= d < config.datasets@.len() && (#[trigger] config.datasets@[d]).0@ == dataset
                    && config.datasets@[d].1 == targets && forall|j: int|
                    0 <= j < d ==> (#[trigger] config.datasets@[j]).0@ != dataset;
            match r {
                Ok(plan) => {
                    assert(collects(
                        config.datasets@[d].1@,
                        filter,
                        config.remotes@,
                        Ok(plan.tasks),
                    ));
                },
                Err(e) => {
                    let c: Result<Vec<Task<'_>>, String> = Err(e);
                    assert(collects(targets@, filter, config.remotes@, c));
                    only_remotes_without_configuration_fail(
                        targets@,
                        filter,
                        config.remotes@,
                        c,
                    );
                    let t = choose|t: int|
                        0 <= t < targets@.len() && wanted(filter, (#[trigger] targets@[t]).0@)
                            && forall|j: int|
                            0 <= j < config.remotes@.len() ==> (#[trigger] config.remotes@[j]).0@
                                != targets@[t].0@;
                    assert(config.datasets@[d].1@[t] == targets@[t]);
                },
            }
        }
    }
}

/// Sending fails exactly where something that was sent failed. What the user called off
/// did not fail.
pub proof fn any_failure_fails_the_send(
    results: Seq<Result<u64, SendError>>,
    one: Result<(), String>,
    datasets: Seq<Result<(), String>>,
    all: Result<(), String>,
)
    requires
        sums_up(results, one),
        sums_up_all(datasets, all),
    ensures
        one is Err <==> exists|i: int|
            0 <= i < results.len() && (#[trigger] results[i]) is Err
                && !results[i]->Err_0.cancelled,
        all is Err <==> exists|i: int| 0 <= i < datasets.len() && (#[trigger] datasets[i]) is Err,
{
    assert forall|i: int| 0 <= i < results.len() implies has_failed(#[trigger] results[i]) == (
    results[i] is Err && !results[i]->Err_0.cancelled) by {}
}

/// To go on with an interrupted transfer fails where the remote has the latest snapshot,
/// and is else what it came to.
pub proof fn nothing_to_resume_is_a_failure(
    result: Result<u64, SendError>,
    r: Result<u64, SendError>,
)
    requires
        resumes(result, r),
    ensures
        result == Ok::<u64, SendError>(0) ==> r is Err && !r->Err_0.cancelled,
        result != Ok::<u64, SendError>(0) ==> r == result,
{
}

// ---------------------------------------------------------------------------
// Holds
// ---------------------------------------------------------------------------

/// The tag of a remote starts as all transfer holds do, with the remote's name behind it;
/// so two remotes never share one.
pub proof fn remotes_have_tags_of_their_own(a: Seq<char>, b: Seq<char>)
    ensures
        tag_for(a) == "zrb:"@ + a,
        tag_for(a) == tag_for(b) ==> a == b,
{
    if tag_for(a) == tag_for(b) {
        let n = "zrb:"@.len() as int;
        assert(tag_for(a).skip(n) =~= a);
        assert(tag_for(b).skip(n) =~= b);
    }
}

/// A move places the hold on the snapshot and under the tag that it is for, and releases
/// the tag, and no other, on each of the others that have it, and on no more.
pub proof fn moves_release_all_others(
    plan: HoldMove,
    snapshot: Seq<char>,
    tag: Seq<char>,
    held: Seq<Seq<char>>,
    name: Seq<char>,
)
    requires
        moves_hold(plan, snapshot, tag, held),
    ensures
        plan.hold matches ZfsCommand::Hold { snapshot: s, tag: t } && s@ == snapshot && t@ == tag,
        forall|i: int|
            0 <= i < plan.releases@.len() ==> (#[trigger] plan.releases@[i] matches ZfsCommand::Release {
                snapshot: s,
                tag: t,
            } && t@ == tag && s@ != snapshot && held.contains(s@)),
        held.contains(name) && name != snapshot ==> exists|i: int|
            0 <= i < plan.releases@.len() && (
            #[trigger] plan.releases@[i] matches ZfsCommand::Release { snapshot: s, tag: _ } && s@
                == name),
{
    let f = other_than(snapshot);
    let others = held.filter(f);
    assert forall|i: int| 0 <= i < plan.releases@.len() implies (
    #[trigger] plan.releases@[i] matches ZfsCommand::Release { snapshot: s, tag: t } && t@ == tag
        && s@ != snapshot && held.contains(s@)) by {
        held.lemma_filter_pred(f, i);
        assert(others.contains(others[i]));
        held.lemma_filter_contains_rev(f, others[i]);
    }
    if held.contains(name) && name != snapshot {
        let k = choose|k: int| 0 <= k < held.len() && held[k] == name;
        held.lemma_filter_contains(f, k);
        let i = choose|i: int| 0 <= i < others.len() && others[i] == name;
        assert(plan.releases@[i] is Release);
    }
}

/// A session begins with the snapshot and the bases that it is given, and with the options
/// and the limit of its remote; the server hears the version, the client's name and the
/// target.
pub proof fn sessions_begin_with_what_they_are_given(
    latest: Seq<char>,
    local_snaps: Seq<String>,
    remote: RemoteConfig,
    target: Seq<char>,
    client_name: Seq<char>,
    session: SendSession,
    hello: ClientHello,
)
    requires
        begins(latest, local_snaps, remote, target, client_name, session, hello),
    ensures
        session.latest@ == latest,
        texts(session.local_snaps@) == texts(local_snaps),
        session.opts@ == remote.zfs_send_opts@,
        session.rate_limit == remote.bandwidth_limit,
        session.state is Opening,
        hello.version@ == VERSION@,
        hello.client_name@ == client_name,
        hello.target@ == target,
{
}

/// The stream is announced with the size that was estimated, and sent under the limit of
/// the session.
pub proof fn streams_are_announced_and_limited(
    session: SendSession,
    event: SessionEvent,
    next: SendState,
    action: SessionAction,
)
    requires
        session_step(session, event, next, action),
    ensures
        match (session.state, event) {
            (_, SessionEvent::SourceStarted(Ok(total))) => next == (SendState::AwaitReady {
                total_bytes: total,
            }),
            (SendState::AwaitReady { total_bytes }, SessionEvent::ReadyWritten(Ok(_))) => action
                == (SessionAction::Stream { total_bytes, rate_limit: session.rate_limit }),
            _ => true,
        },
{
}

/// Whether the tasks are taken from the targets at these places, in their order.
pub open spec fn taken_in_order(
    tasks: Seq<Task<'_>>,
    targets: Seq<(String, String)>,
    places: Seq<int>,
) -> bool {
    &&& places.len() == tasks.len()
    &&& forall|t: int|
        0 <= t < tasks.len() ==> 0 <= #[trigger] places[t] < targets.len()
            && targets[places[t]].0@ == tasks[t].0@ && targets[places[t]].1@ == tasks[t].2@
    &&& forall|t: int, u: int|
        0 <= t < u < tasks.len() ==> #[trigger] places[t] < #[trigger] places[u]
}

#[verifier::rlimit(40)]
proof fn lemma_places(
    tasks: Seq<Task<'_>>,
    targets: Seq<(String, String)>,
    filter: Option<&[&str]>,
    remotes: Seq<(String, RemoteConfig)>,
) -> (places: Seq<int>)
    requires
        are_tasks(tasks, targets, filter, remotes),
    ensures
        taken_in_order(tasks, targets, places),
    decreases targets.len(),
{
    if targets.len() == 0 {
        seq![]
    } else {
        let rest = targets.drop_last();
        let n = targets.len() - 1;
        if is_chosen(filter, targets.last().0@) {
            let some = tasks.drop_last();
            let places = lemma_places(some, rest, filter, remotes);
            let all = places.push(n);
            assert forall|t: int| 0 <= t < tasks.len() implies 0 <= #[trigger] all[t]
                < targets.len() && targets[all[t]].0@ == tasks[t].0@ && targets[all[t]].1@
                == tasks[t].2@ by {
                if t < some.len() {
                    assert(0 <= places[t] < rest.len());
                    assert(rest[places[t]] == targets[places[t]]);
                    assert(some[t] == tasks[t]);
                }
            }
            assert forall|t: int, u: int| 0 <= t < u < tasks.len() implies #[trigger] all[t]
                < #[trigger] all[u] by {
                if u < some.len() {
                    assert(places[t] < places[u]);
                } else {
                    assert(0 <= places[t] < rest.len());
                }
            }
            all
        } else {
            let places = lemma_places(tasks, rest, filter, remotes);
            assert forall|t: int| 0 <= t < tasks.len() implies 0 <= #[trigger] places[t]
                < targets.len() && targets[places[t]].0@ == tasks[t].0@ && targets[places[t]].1@
                == tasks[t].2@ by {
                assert(rest[places[t]] == targets[places[t]]);
            }
            places
        }
    }
}

/// The tasks stand in the order of the dataset's remotes, and none stands twice for one of
/// these.
pub proof fn tasks_stand_in_order(
    targets: Seq<(String, String)>,
    filter: Option<&[&str]>,
    remotes: Seq<(String, RemoteConfig)>,
    tasks: Vec<Task<'_>>,
)
    requires
        collects(targets, filter, remotes, Ok(tasks)),
    ensures
        exists|places: Seq<int>| taken_in_order(tasks@, targets, places),
{
    let places = lemma_places(tasks@, targets, filter, remotes);
    assert(taken_in_order(tasks@, targets, places));
}

// ---------------------------------------------------------------------------
// What is said
// ---------------------------------------------------------------------------

/// What failed when a session ended with an error, and whether the user gave it up.
pub open spec fn failure_of(action: SessionAction) -> Option<(Seq<char>, bool)> {
    match action {
        SessionAction::Finish { result: Err(e), .. } => Some((e.message@, e.cancelled)),
        _ => None,
    }
}

/// Whether a session ended because the user gave it up.
pub open spec fn gives_up(action: SessionAction) -> bool {
    action matches SessionAction::Finish { result: Err(e), .. } && e.cancelled
}

/// An error that ends a session names the step that failed, and it is the user's doing only
/// where the stream was called off. The server is told the command that could not be
/// started, which is another one where a transfer is taken up again.
pub proof fn failed_steps_are_named(
    session: SendSession,
    event: SessionEvent,
    next: SendState,
    action: SessionAction,
)
    requires
        session_step(session, event, next, action),
    ensures
        match (session.state, event) {
            (_, SessionEvent::HelloWritten(Err(_))) => failure_of(action) == Some(
                ("writing ClientHello"@, false),
            ),
            (_, SessionEvent::VersionRead(Err(_))) => failure_of(action) == Some(
                ("reading version ServerStatus"@, false),
            ),
            (_, SessionEvent::VersionRead(Ok(status))) => !status.ok ==> failure_of(action) == Some(
                ("server rejected connection: "@ + status.message@, false),
            ),
            (_, SessionEvent::HelloRead(Err(_))) => failure_of(action) == Some(
                ("reading ServerHello"@, false),
            ),
            (SendState::AwaitSource { resume }, SessionEvent::SourceStarted(Err(_))) => {
                let command = if resume {
                    "zfs send -t"@
                } else {
                    "zfs send"@
                };
                &&& failure_of(action) == Some((command, false))
                &&& action->last is Some && action->last->0.message@ == command
            },
            (_, SessionEvent::ReadyWritten(Err(_))) => failure_of(action) == Some(
                ("writing ClientReady"@, false),
            ),
            (_, SessionEvent::StreamEnded(Err(CodecError::Cancelled))) => failure_of(action)
                == Some(("transferring stream"@, true)),
            (SendState::AwaitReason { .. }, SessionEvent::StatusRead(read)) => read is Err
                || read->Ok_0.ok ==> failure_of(action) == Some(("transferring stream"@, false)),
            (SendState::AwaitStatus { .. }, SessionEvent::StatusRead(Err(_))) => failure_of(action)
                == Some(("reading ServerStatus"@, false)),
            _ => !gives_up(action),
        },
{
    if let SessionEvent::HelloRead(Ok(hello)) = event {
        let decision = choose|decision: Result<TransferDecision, String>|
            decides(hello, texts(session.local_snaps@), session.latest@, decision) && acts_on(
                session,
                decision,
                next,
                action,
            );
        assert(acts_on(session, decision, next, action));
    }
}

/// A transfer is taken up again exactly where the command that is started continues a
/// stream.
pub proof fn resumed_transfers_continue_a_stream(
    session: SendSession,
    event: SessionEvent,
    next: SendState,
    action: SessionAction,
)
    requires
        session_step(session, event, next, action),
        next is AwaitSource,
    ensures
        action is StartSource,
        next->resume <==> action->stream is SendResume,
        next->resume <==> action->estimate is EstimateResume,
{
    if let SessionEvent::HelloRead(Ok(hello)) = event {
        let decision = choose|decision: Result<TransferDecision, String>|
            decides(hello, texts(session.local_snaps@), session.latest@, decision) && acts_on(
                session,
                decision,
                next,
                action,
            );
        assert(acts_on(session, decision, next, action));
    }
}

/// What failed stands in front, and the cause, where there is one, behind a colon.
pub proof fn causes_stand_behind(e: SendError)
    ensures
        e.cause is None ==> e.full_text() == e.message@,
        e.cause is Some ==> e.full_text() == e.message@ + seq![':', ' '] + e.cause->0@,
{
    reveal_strlit(": ");
    assert(": "@ =~= seq![':', ' ']);
}

/// A send that cannot be planned says what is missing: a remote's configuration, the
/// dataset's, or a snapshot.
pub proof fn what_is_missing_is_named(
    dataset: Seq<char>,
    raw: Result<Vec<String>, ClientError>,
    config: SourceConfig,
    filter: Option<&[&str]>,
    r: Result<SendPlan<'_>, String>,
)
    requires
        plans(dataset, raw, config, filter, r),
    ensures
        raw is Err ==> r is Err && r->Err_0@ == "listing local snapshots for "@ + dataset + ": "@
            + raw->Err_0.text(),
        raw is Ok && (forall|i: int|
            0 <= i < raw->Ok_0@.len() ==> stamp((#[trigger] raw->Ok_0@[i])@) is None) ==> r is Err
            && r->Err_0@ == "no local snapshots for '"@ + dataset
            + "'; run `zrb snapshot` first"@,
        raw is Ok && (exists|i: int|
            0 <= i < raw->Ok_0@.len() && stamp((#[trigger] raw->Ok_0@[i])@) is Some) && (forall|d: int|
            0 <= d < config.datasets@.len() ==> (#[trigger] config.datasets@[d]).0@ != dataset)
            ==> r is Err && r->Err_0@ == "dataset '"@ + dataset + "' not found in config"@,
{
    broadcast use vstd::seq_lib::group_to_multiset_ensures;

    lookup_finds_the_first(config.datasets@, dataset);
    if let Ok(names) = raw {
        let all = texts(names@);
        let local = listing(all);
        assert forall|name: Seq<char>| #[trigger] local.contains(name) <==> all.contains(name)
            && stamp(name) is Some by {
            listings_hold_the_managed_names(all, name);
        }
        if local.len() > 0 {
            assert(local.contains(local[0]));
            let k = choose|k: int| 0 <= k < all.len() && all[k] == local[0];
            assert(stamp(names@[k]@) is Some);
        }
        if exists|i: int| 0 <= i < names@.len() && stamp((#[trigger] names@[i])@) is Some {
            let i = choose|i: int| 0 <= i < names@.len() && stamp((#[trigger] names@[i])@) is Some;
            assert(all[i] == names@[i]@);
            assert(local.contains(all[i]));
        }
    }
}

/// A remote without configuration is named in these words, the first of them that is
/// wanted.
pub proof fn the_first_unknown_remote_is_named(
    targets: Seq<(String, String)>,
    filter: Option<&[&str]>,
    remotes: Seq<(String, RemoteConfig)>,
    r: Result<Vec<Task<'_>>, String>,
    i: int,
)
    requires
        collects(targets, filter, remotes, r),
        0 <= i < targets.len(),
        wanted(filter, targets[i].0@),
        forall|j: int| 0 <= j < remotes.len() ==> (#[trigger] remotes[j]).0@ != targets[i].0@,
        forall|k: int|
            0 <= k < i && wanted(filter, (#[trigger] targets[k]).0@) ==> exists|j: int|
                0 <= j < remotes.len() && (#[trigger] remotes[j]).0@ == targets[k].0@,
    ensures
        r is Err,
        r->Err_0@ == "remote '"@ + targets[i].0@ + "' not in config"@,
{
    lemma_first_unknown_at(targets, filter, remotes, i);
}

proof fn lemma_first_unknown_at(
    targets: Seq<(String, String)>,
    filter: Option<&[&str]>,
    remotes: Seq<(String, RemoteConfig)>,
    i: int,
)
    requires
        0 <= i < targets.len(),
        wanted(filter, targets[i].0@),
        forall|j: int| 0 <= j < remotes.len() ==> (#[trigger] remotes[j]).0@ != targets[i].0@,
        forall|k: int|
            0 <= k < i && wanted(filter, (#[trigger] targets[k]).0@) ==> exists|j: int|
                0 <= j < remotes.len() && (#[trigger] remotes[j]).0@ == targets[k].0@,
    ensures
        first_unknown(targets, filter, remotes) == Some(targets[i].0@),
    decreases i,
{
    lemma_wanted(filter, targets[0].0@);
    lookup_finds_the_first(remotes, targets[0].0@);
    if i > 0 {
        let rest = targets.drop_first();
        assert(rest[i - 1] == targets[i]);
        assert(wanted(filter, targets[0].0@) ==> exists|j: int|
            0 <= j < remotes.len() && (#[trigger] remotes[j]).0@ == targets[0].0@);
        assert forall|k: int|
            0 <= k < i - 1 && wanted(filter, (#[trigger] rest[k]).0@) implies exists|j: int|
            0 <= j < remotes.len() && (#[trigger] remotes[j]).0@ == rest[k].0@ by {
            assert(rest[k] == targets[k + 1]);
            assert(wanted(filter, targets[k + 1].0@));
        }
        lemma_first_unknown_at(rest, filter, remotes, i - 1);
    }
}

// ---------------------------------------------------------------------------
// Estimates
// ---------------------------------------------------------------------------

/// An estimate is the size in what the command printed. For a stream that continues, the
/// errors are read first; for a new one, the output. Where no size is found the one counts
/// as nothing, and the other is an error.
pub proof fn estimates_are_what_was_printed(
    output: CommandOutput,
    resumed: u64,
    sent: Result<u64, String>,
)
    requires
        estimates_resume(Ok(output), resumed),
        estimates_send(Ok(output), sent),
    ensures
        ({
            let errors_first = size_text(
                lossy_text(output.stderr@) + seq!['\n'] + lossy_text(output.stdout@),
            );
            let output_first = size_text(
                lossy_text(output.stdout@) + seq!['\n'] + lossy_text(output.stderr@),
            );
            &&& resumed > 0 ==> errors_first is Some && size_value(errors_first->0) == Some(
                resumed as int,
            )
            &&& errors_first is Some && size_value(errors_first->0) is Some ==> size_value(
                errors_first->0,
            ) == Some(resumed as int)
            &&& sent is Ok <==> output_first is Some && size_value(output_first->0) is Some
            &&& sent is Ok ==> size_value(output_first->0) == Some(sent->Ok_0 as int)
        }),
{
    reveal_strlit("\n");
    assert("\n"@ =~= seq!['\n']);
}

/// Where the command did not run, a stream that continues counts as nothing, and for a new
/// one the error says why.
pub proof fn estimates_that_did_not_run_are_unknown(
    e: String,
    resumed: u64,
    sent: Result<u64, String>,
)
    requires
        estimates_resume(Err(e), resumed),
        estimates_send(Err(e), sent),
    ensures
        resumed == 0,
        sent is Err && sent->Err_0@ == "running zfs send -n -v"@ + seq![':', ' '] + e@,
{
    reveal_strlit(": ");
    assert(": "@ =~= seq![':', ' ']);
}

} // verus!
