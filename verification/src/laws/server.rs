//! The server's side: who may send where, and what becomes of it.

use crate::VERSION;
use crate::config::ServerConfig;
use crate::laws::naming::{listings_hold_the_managed_names, not_later};
use crate::laws::text::lookup_finds_the_first;
use crate::number::{decimal_reads_back, decimal_text, is_digit, lemma_decimal_text};
use crate::ops::list::listing;
use crate::ops::send::HoldMove;
use crate::ops::server::{
    acts_on, holds_the_newest, is_run, notes_when_needed, server_step, Conclusion, ServerAction,
    ServerEvent, ServerState, Step,
};
use crate::protocol::codec::{ClientHello, CodecError, ServerStatus};
use crate::protocol::handshake::{
    answers, head_of, heeds, in_context, introduces, major_minor, patch_releases_agree,
    versions_agree, Admission, Outcome,
};
use crate::snapshot::naming::stamp;
use crate::text::{cut, lemma_cut, lemma_cut_join, lookup, occurs, occurs_at, opt_text, texts};
use crate::time::Timestamp;
use crate::zfs::client::{ClientError, ZfsCommand};
use vstd::prelude::*;
use vstd::string::*;

verus! {

// ---------------------------------------------------------------------------
// Versions
// ---------------------------------------------------------------------------

proof fn lemma_no_point(n: int)
    requires
        n >= 0,
    ensures
        !decimal_text(n).contains('.'),
{
    lemma_decimal_text(n);
    let s = decimal_text(n);
    assert forall|i: int| 0 <= i < s.len() implies s[i] != '.' by {
        assert(is_digit(s[i]));
    }
}

proof fn lemma_version(a: int, b: int, x: Seq<char>)
    requires
        0 <= a <= u64::MAX,
        0 <= b <= u64::MAX,
        x.len() == 0 || x[0] == '.',
    ensures
        major_minor(
            decimal_text(a).push('.') + (decimal_text(b) + x),
        ) == Some((a, b)),
{
    let rest = decimal_text(b) + x;
    lemma_no_point(a);
    lemma_no_point(b);
    lemma_cut_join(decimal_text(a), '.', rest);
    decimal_reads_back(a);
    decimal_reads_back(b);
    if x.len() == 0 {
        assert(rest =~= decimal_text(b));
        lemma_cut(rest, '.');
        if cut(rest, '.') is Some {
            let (p, q) = cut(rest, '.')->0;
            assert(rest[p.len() as int] == '.');
        }
    } else {
        assert(rest =~= decimal_text(b).push('.') + x.skip(1));
        lemma_cut_join(decimal_text(b), '.', x.skip(1));
    }
}

/// Two versions agree exactly where their first two numbers are the same, whatever
/// follows behind another point.
pub proof fn versions_agree_on_two_numbers(
    a: int,
    b: int,
    x: Seq<char>,
    c: int,
    d: int,
    y: Seq<char>,
)
    requires
        0 <= a <= u64::MAX,
        0 <= b <= u64::MAX,
        0 <= c <= u64::MAX,
        0 <= d <= u64::MAX,
        x.len() == 0 || x[0] == '.',
        y.len() == 0 || y[0] == '.',
    ensures
        versions_agree(
            decimal_text(a).push('.') + (decimal_text(b) + x),
            decimal_text(c).push('.') + (decimal_text(d) + y),
        ) <==> a == c && b == d,
{
    lemma_version(a, b, x);
    lemma_version(c, d, y);
}

/// What has no point in it is no version, and agrees with none.
pub proof fn versions_have_a_point(a: Seq<char>, b: Seq<char>)
    requires
        !a.contains('.') || !b.contains('.'),
    ensures
        !versions_agree(a, b),
{
    lemma_cut(a, '.');
    lemma_cut(b, '.');
    if cut(a, '.') is Some {
        let (p, q) = cut(a, '.')->0;
        assert(a[p.len() as int] == '.');
    }
    if cut(b, '.') is Some {
        let (p, q) = cut(b, '.')->0;
        assert(b[p.len() as int] == '.');
    }
}

// ---------------------------------------------------------------------------
// Admission
// ---------------------------------------------------------------------------

/// Whether the entry at `i` is the first that configures the client, and lets it send to
/// the target.
pub open spec fn lets_in(config: ServerConfig, request: ClientHello, i: int) -> bool {
    &&& 0 <= i < config.clients@.len()
    &&& config.clients@[i].0@ == request.client_name@
    &&& forall|j: int|
        0 <= j < i ==> (#[trigger] config.clients@[j]).0@ != request.client_name@
    &&& exists|k: int|
        0 <= k < config.clients@[i].1.allow@.len() && (
        #[trigger] config.clients@[i].1.allow@[k])@ == request.target@
}

/// A request is admitted exactly where the versions agree, the client is among the
/// permitted, and its entry in the configuration allows the target, to the letter. What
/// is admitted is that target, with the options of that entry. An admitted client hears
/// that all is well and no more; any other hears a refusal last.
#[verifier::rlimit(40)]
pub proof fn admission_is_by_name_and_target(
    config: ServerConfig,
    permitted: Seq<Seq<char>>,
    request: ClientHello,
    answer: Admission,
)
    requires
        answers(config, permitted, request, answer),
    ensures
        answer.outcome is Admit <==> versions_agree(request.version@, VERSION@)
            && permitted.contains(request.client_name@) && exists|i: int| #[trigger]
            lets_in(config, request, i),
        match answer.outcome {
            Outcome::Admit(result) => {
                &&& result.target@ == request.target@
                &&& exists|i: int| #[trigger]
                    lets_in(config, request, i) && result.zfs_receive_opts@
                        == config.clients@[i].1.zfs_receive_opts@
                &&& answer.replies@.len() == 1
                &&& answer.replies@[0].ok
            },
            Outcome::Close => {
                let n = answer.replies@.len();
                &&& 1 <= n <= 2
                &&& !answer.replies@[n - 1].ok
                &&& n == 1 <==> !versions_agree(request.version@, VERSION@)
                &&& n == 1 ==> occurs(answer.replies@[0].message@, request.version@) && occurs(
                    answer.replies@[0].message@,
                    VERSION@,
                )
                &&& n == 2 ==> answer.replies@[0].ok
                &&& n == 2 ==> occurs(
                    answer.replies@[1].message@,
                    if permitted.contains(request.client_name@) && exists|i: int|
                        0 <= i < config.clients@.len() && (#[trigger] config.clients@[i]).0@
                            == request.client_name@ {
                        request.target@
                    } else {
                        request.client_name@
                    },
                )
            },
        },
{
    lookup_finds_the_first(config.clients@, request.client_name@);
    match lookup(config.clients@, request.client_name@) {
        Some(client) => {
            let i = choose|i: int|
                0 <= i < config.clients@.len() && (#[trigger] config.clients@[i]).0@
                    == request.client_name@ && config.clients@[i].1 == client && forall|j: int|
                    0 <= j < i ==> (#[trigger] config.clients@[j]).0@ != request.client_name@;
            let all = texts(client.allow@);
            if all.contains(request.target@) {
                let k = choose|k: int| 0 <= k < all.len() && all[k] == request.target@;
                assert(config.clients@[i].1.allow@[k]@ == request.target@);
                assert(lets_in(config, request, i));
            }
            assert forall|m: int| #[trigger] lets_in(config, request, m) implies all.contains(
                request.target@,
            ) by {
                if m < i {
                    assert(config.clients@[m].0@ != request.client_name@);
                }
                if m > i {
                    assert(config.clients@[i].0@ != request.client_name@);
                }
                let k = choose|k: int|
                    0 <= k < config.clients@[m].1.allow@.len() && (
                    #[trigger] config.clients@[m].1.allow@[k])@ == request.target@;
                assert(all[k] == request.target@);
            }
        },
        None => {
            assert forall|m: int| !(#[trigger] lets_in(config, request, m)) by {
                if 0 <= m < config.clients@.len() {
                    assert(config.clients@[m].0@ != request.client_name@);
                }
            }
        },
    }
    if answer.outcome is Close && answer.replies@.len() == 1 {
        let m = answer.replies@[0].message@;
        let v = request.version@;
        let n = "version mismatch: client "@.len() as int;
        let k = n + v.len() + ", server "@.len();
        assert(m.subrange(n, n + v.len()) =~= v);
        assert(occurs_at(m, v, n));
        assert(m.subrange(k, k + VERSION@.len()) =~= VERSION@);
        assert(occurs_at(m, VERSION@, k));
    }
    if answer.outcome is Close && answer.replies@.len() == 2 {
        let m = answer.replies@[1].message@;
        let v = request.client_name@;
        let n = "unknown client: "@.len() as int;
        if !permitted.contains(v) || lookup(config.clients@, v) is None {
            assert(m.subrange(n, n + v.len()) =~= v);
            assert(occurs_at(m, v, n));
        } else {
            let t = request.target@;
            let k = "dataset not allowed: "@.len() as int;
            assert(m.subrange(k, k + t.len()) =~= t);
            assert(occurs_at(m, t, k));
        }
    }
}

/// What a session does once it has heard a hello: it asks the pool about the target where
/// the client is admitted, and keeps the options of the client's entry; else it ends in
/// good order with a refusal.
pub proof fn sessions_open_for_the_admitted(
    config: ServerConfig,
    permitted: Seq<Seq<char>>,
    request: ClientHello,
    next: ServerState,
    action: ServerAction,
)
    requires
        server_step(
            config,
            permitted,
            ServerState::AwaitHello,
            ServerEvent::HelloRead(Ok(request)),
            next,
            action,
        ),
    ensures
        action is Ask <==> versions_agree(request.version@, VERSION@) && permitted.contains(
            request.client_name@,
        ) && exists|i: int| #[trigger] lets_in(config, request, i),
        match action {
            ServerAction::Ask { replies, target } => {
                &&& target@ == request.target@
                &&& replies@.len() == 1 && replies@[0].ok
                &&& match next {
                    ServerState::AwaitAnswer { target: t, opts } => t@ == request.target@ && exists|
                        i: int,
                    | #[trigger]
                        lets_in(config, request, i) && opts@
                            == config.clients@[i].1.zfs_receive_opts@,
                    _ => false,
                }
            },
            ServerAction::Close { replies, result } => {
                &&& next is Closed
                &&& result is Ok
                &&& replies@.len() > 0 && !replies@[replies@.len() - 1].ok
            },
            _ => false,
        },
{
    let answer = choose|answer: Admission|
        answers(config, permitted, request, answer) && acts_on(answer, next, action);
    admission_is_by_name_and_target(config, permitted, request, answer);
}

// ---------------------------------------------------------------------------
// What the server has
// ---------------------------------------------------------------------------

/// Whether `head` is the newest managed one of `raw`, or nothing where there is none.
pub open spec fn is_newest(raw: Seq<Seq<char>>, head: Option<Seq<char>>) -> bool {
    match head {
        Some(h) => raw.contains(h) && stamp(h) is Some && forall|i: int|
            0 <= i < raw.len() && stamp(#[trigger] raw[i]) is Some ==> not_later(
                stamp(raw[i])->0,
                stamp(h)->0,
            ),
        None => forall|i: int| 0 <= i < raw.len() ==> stamp(#[trigger] raw[i]) is None,
    }
}

/// The head of some names is the newest managed one.
pub proof fn heads_are_the_newest(raw: Seq<Seq<char>>)
    ensures
        is_newest(raw, head_of(raw)),
{
    broadcast use vstd::seq_lib::group_to_multiset_ensures;

    let all = listing(raw);
    assert forall|i: int| 0 <= i < raw.len() && stamp(#[trigger] raw[i]) is Some implies all.len()
        > 0 && not_later(stamp(raw[i])->0, stamp(all.last())->0) by {
        let x = raw[i];
        listings_hold_the_managed_names(raw, x);
        assert(raw.to_multiset().count(x) > 0);
        assert(all.contains(x));
        let k = choose|k: int| 0 <= k < all.len() && all[k] == x;
        if k < all.len() - 1 {
            assert(stamp(all[all.len() - 1]) is Some);
        }
    }
    if all.len() > 0 {
        let x = all.last();
        listings_hold_the_managed_names(raw, x);
        assert(all[all.len() - 1] == x);
        assert(all.to_multiset().count(x) > 0);
        assert(raw.contains(x));
    }
}

/// What an admitted client hears: the newest managed snapshot that the pool has of the
/// target, and the token, as it is, of an interrupted transfer. What the pool does not say
/// ends the session with an error.
pub proof fn clients_hear_of_the_newest_snapshot(
    config: ServerConfig,
    permitted: Seq<Seq<char>>,
    target: String,
    opts: Vec<String>,
    token: Result<Option<String>, ClientError>,
    snapshots: Result<Vec<String>, ClientError>,
    next: ServerState,
    action: ServerAction,
)
    requires
        server_step(
            config,
            permitted,
            ServerState::AwaitAnswer { target, opts },
            ServerEvent::Answered(token, snapshots),
            next,
            action,
        ),
    ensures
        action is SendHello <==> token is Ok && snapshots is Ok,
        match action {
            ServerAction::SendHello(hello) => {
                &&& is_newest(texts(snapshots->Ok_0@), opt_text(hello.head))
                &&& hello.resume_token == token->Ok_0
                &&& hello.version@ == VERSION@
                &&& match next {
                    ServerState::AwaitReady { target: t, opts: o } => t@ == target@ && o@ == opts@,
                    _ => false,
                }
            },
            ServerAction::Close { replies, result } => result is Err && replies@.len() == 0
                && next is Closed,
            _ => false,
        },
{
    if let Ok(raw) = snapshots {
        heads_are_the_newest(texts(raw@));
    }
}

// ---------------------------------------------------------------------------
// The stream
// ---------------------------------------------------------------------------

/// What becomes of a stream. A client that is ready makes the receiver start, on the
/// target and with the client's options; one that is not ends the session in good order.
/// A stream that is complete and was received is held and confirmed. Any other is noted on
/// the target; and unless the connection was closed, the client then hears of a failure,
/// with the receiver's reason where it gave one. What fails otherwise ends the session
/// with an error and without a word.
#[verifier::rlimit(40)]
pub proof fn streams_are_received_or_noted(
    config: ServerConfig,
    permitted: Seq<Seq<char>>,
    state: ServerState,
    event: ServerEvent,
    next: ServerState,
    action: ServerAction,
)
    requires
        server_step(config, permitted, state, event, next, action),
    ensures
        match (state, event) {
            (ServerState::AwaitReady { target, opts }, ServerEvent::ReadyRead(Ok(ready))) => if ready.ok {
                &&& action matches ServerAction::StartReceiver(
                    ZfsCommand::Receive { dataset, opts: o },
                ) && dataset@ == target@ && o@ == opts@
                &&& next matches ServerState::AwaitReceiver { target: t } && t@ == target@
            } else {
                &&& action matches ServerAction::Close { replies, result } && replies@.len() == 0
                    && result is Ok
                &&& next is Closed
            },
            (ServerState::AwaitReceiver { target }, ServerEvent::ReceiverStarted(Ok(_))) => {
                &&& action is TakeIn
                &&& next matches ServerState::Receiving { target: t } && t@ == target@
            },
            (ServerState::Receiving { target }, ServerEvent::StreamEnded(ended)) => {
                &&& action is FinishReceiver
                &&& next matches ServerState::AwaitExit { target: t, ended: how } && t@ == target@
                    && (how is Complete <==> ended == Ok::<
                    bool,
                    CodecError,
                >(false)) && (how is Cancelled <==> ended == Ok::<
                    bool,
                    CodecError,
                >(true))
            },
            (
                ServerState::AwaitExit { target, ended },
                ServerEvent::ReceiverFinished(exit),
            ) => if ended is Complete && exit is Ok {
                &&& action matches ServerAction::HoldAndClose { target: t, replies } && t@
                    == target@ && replies@.len() == 1 && replies@[0].ok
                &&& next is Closed
            } else {
                &&& action matches ServerAction::Note { target: t } && t@ == target@
                &&& next matches ServerState::AwaitNote { target: t, conclusion } && t@ == target@
                    && (conclusion is Silent <==> ended is Cancelled) && (conclusion is Tell
                    ==> conclusion->Tell_0@ == match exit {
                    Err(e) => e.text(),
                    Ok(_) => "stream error"@,
                })
            },
            (ServerState::AwaitNote { conclusion, .. }, ServerEvent::Noted(Ok(_))) => {
                &&& next is Closed
                &&& action matches ServerAction::Close { replies, result } && result is Ok && (
                match conclusion {
                    Conclusion::Silent => replies@.len() == 0,
                    Conclusion::Tell(message) => replies@.len() == 1 && !replies@[0].ok
                        && replies@[0].message@ == message@,
                })
            },
            (_, ServerEvent::HelloRead(Ok(_))) => true,
            (_, ServerEvent::Answered(_, _)) => true,
            _ => {
                &&& next is Closed
                &&& action matches ServerAction::Close { replies, result } && replies@.len() == 0
                    && result is Err
            },
        },
{
}

/// Whether in step `j` a request was heard that lets its client send to `target` with
/// these options.
pub open spec fn let_in_at(
    config: ServerConfig,
    permitted: Seq<Seq<char>>,
    steps: Seq<Step>,
    j: int,
    target: Seq<char>,
    opts: Seq<String>,
) -> bool {
    match steps[j].event {
        ServerEvent::HelloRead(Ok(request)) => versions_agree(request.version@, VERSION@)
            && permitted.contains(request.client_name@) && request.target@ == target && exists|
            i: int,
        | #[trigger]
            lets_in(config, request, i) && config.clients@[i].1.zfs_receive_opts@ == opts,
        _ => false,
    }
}

#[verifier::rlimit(40)]
proof fn lemma_let_in(config: ServerConfig, permitted: Seq<Seq<char>>, steps: Seq<Step>, i: int)
    requires
        is_run(config, permitted, steps),
        0 <= i < steps.len(),
        steps[i].before is AwaitAnswer || steps[i].before is AwaitReady,
    ensures
        match steps[i].before {
            ServerState::AwaitAnswer { target, opts } => exists|j: int|
                0 <= j < i && #[trigger] let_in_at(
                    config,
                    permitted,
                    steps,
                    j,
                    target@,
                    opts@,
                ),
            ServerState::AwaitReady { target, opts } => exists|j: int|
                0 <= j < i && #[trigger] let_in_at(
                    config,
                    permitted,
                    steps,
                    j,
                    target@,
                    opts@,
                ),
            _ => true,
        },
    decreases i,
{
    let p = steps[i - 1];
    assert(i > 0);
    assert(steps[i].before == p.after);
    assert(server_step(config, permitted, p.before, p.event, p.after, p.action));
    match p.event {
        ServerEvent::HelloRead(Ok(request)) => {
            sessions_open_for_the_admitted(config, permitted, request, p.after, p.action);
            if let ServerState::AwaitAnswer { target, opts } = p.after {
                let k = choose|k: int| #[trigger]
                    lets_in(config, request, k) && opts@
                        == config.clients@[k].1.zfs_receive_opts@;
                assert(lets_in(config, request, k));
                assert(let_in_at(config, permitted, steps, i - 1, target@, opts@));
            }
        },
        _ => {
            streams_are_received_or_noted(config, permitted, p.before, p.event, p.after, p.action);
            lemma_let_in(config, permitted, steps, i - 1);
            if let ServerState::AwaitReady { target, opts } = p.after {
                let (t, o) = (p.before->AwaitAnswer_target, p.before->AwaitAnswer_opts);
                let j = choose|j: int|
                    0 <= j < i - 1 && #[trigger] let_in_at(
                        config,
                        permitted,
                        steps,
                        j,
                        t@,
                        o@,
                    );
                assert(let_in_at(config, permitted, steps, j, target@, opts@));
            }
        },
    }
}

/// However a session goes, the receiver is started only on a dataset that a permitted and
/// configured client asked for and may send to, and with the options of that client's
/// entry.
pub proof fn receivers_start_for_the_admitted_alone(
    config: ServerConfig,
    permitted: Seq<Seq<char>>,
    steps: Seq<Step>,
    i: int,
)
    requires
        is_run(config, permitted, steps),
        0 <= i < steps.len(),
        steps[i].action is StartReceiver,
    ensures
        steps[i].action matches ServerAction::StartReceiver(ZfsCommand::Receive { dataset, opts })
            && exists|j: int|
            0 <= j < i && #[trigger] let_in_at(
                config,
                permitted,
                steps,
                j,
                dataset@,
                opts@,
            ),
{
    let p = steps[i];
    assert(server_step(config, permitted, p.before, p.event, p.after, p.action));
    match p.event {
        ServerEvent::HelloRead(Ok(request)) => {
            sessions_open_for_the_admitted(config, permitted, request, p.after, p.action);
        },
        _ => {
            lemma_let_in(config, permitted, steps, i);
        },
    }
}

// ---------------------------------------------------------------------------
// After the stream
// ---------------------------------------------------------------------------

/// What is held after a transfer is the newest managed snapshot that the pool has, under
/// `zrb:received`. Where there is none, or the pool does not say, nothing is.
pub proof fn what_was_received_is_held(
    raw: Result<Vec<String>, ClientError>,
    held: Result<Vec<String>, ClientError>,
    r: Option<HoldMove>,
)
    requires
        holds_the_newest(raw, held, r),
    ensures
        raw is Err ==> r is None,
        raw is Ok ==> match r {
            Some(plan) => match plan.hold {
                ZfsCommand::Hold { snapshot, tag } => tag@ == "zrb:received"@ && is_newest(
                    texts(raw->Ok_0@),
                    Some(snapshot@),
                ),
                _ => false,
            },
            None => forall|i: int|
                0 <= i < raw->Ok_0@.len() ==> stamp((#[trigger] raw->Ok_0@[i])@) is None,
        },
{
    if let Ok(names) = raw {
        heads_are_the_newest(texts(names@));
        if r is None {
            assert forall|i: int| 0 <= i < names@.len() implies stamp(
                (#[trigger] names@[i])@,
            ) is None by {
                assert(texts(names@)[i] == names@[i]@);
            }
        }
    }
}

/// A note is set exactly where there is a token and no note yet, on the dataset and with
/// the time it is.
pub proof fn only_new_interruptions_are_noted(
    dataset: Seq<char>,
    token: Result<Option<String>, ClientError>,
    since: Result<Option<Timestamp>, ClientError>,
    now: Timestamp,
    r: Result<Option<ZfsCommand>, String>,
)
    requires
        notes_when_needed(dataset, token, since, now, r),
    ensures
        r is Ok && r->Ok_0 is Some <==> token is Ok && token->Ok_0 is Some && since is Ok
            && since->Ok_0 is None,
        r is Err <==> token is Err || (token->Ok_0 is Some && since is Err),
        r is Ok && r->Ok_0 is Some ==> (r->Ok_0->0 matches ZfsCommand::SetResumeSince {
            dataset: d,
            since: s,
        } && d@ == dataset && s == now),
{
}

/// An error that ends a session says what went wrong.
pub proof fn session_errors_say_why(
    config: ServerConfig,
    permitted: Seq<Seq<char>>,
    state: ServerState,
    event: ServerEvent,
    next: ServerState,
    action: ServerAction,
)
    requires
        server_step(config, permitted, state, event, next, action),
        action matches ServerAction::Close { result: Err(_), .. },
    ensures
        match event {
            ServerEvent::HelloRead(Err(e)) => occurs(error_of(action), e.text()),
            ServerEvent::Answered(Err(e), _) => occurs(error_of(action), e.text()),
            ServerEvent::Answered(Ok(_), Err(e)) => occurs(error_of(action), e.text()),
            ServerEvent::ReadyRead(Err(e)) => occurs(error_of(action), e.text()),
            ServerEvent::ReceiverStarted(Err(e)) => occurs(error_of(action), e.text()),
            ServerEvent::Noted(Err(e)) => error_of(action) == e@,
            _ => false,
        },
{
    let m = error_of(action);
    match event {
        ServerEvent::HelloRead(Ok(request)) => {
            sessions_open_for_the_admitted(config, permitted, request, next, action);
        },
        ServerEvent::HelloRead(Err(e)) => {
            lemma_ends_with("reading ClientHello"@, e.text(), m);
        },
        ServerEvent::Answered(Err(e), _) => {
            lemma_ends_with("checking resume token"@, e.text(), m);
        },
        ServerEvent::Answered(Ok(_), Err(e)) => {
            lemma_ends_with("listing snapshots"@, e.text(), m);
        },
        ServerEvent::ReadyRead(Err(e)) => {
            lemma_ends_with("reading ClientReady"@, e.text(), m);
        },
        ServerEvent::ReceiverStarted(Err(e)) => {
            lemma_ends_with("spawning zfs receive"@, e.text(), m);
        },
        _ => {},
    }
}

/// The error that a session ends with.
pub open spec fn error_of(action: ServerAction) -> Seq<char> {
    match action {
        ServerAction::Close { result: Err(e), .. } => e@,
        _ => seq![],
    }
}

proof fn lemma_ends_with(what: Seq<char>, err: Seq<char>, m: Seq<char>)
    requires
        m == in_context(what, err),
    ensures
        occurs(m, err),
{
    let n = (what.len() + ": "@.len()) as int;
    assert(m.subrange(n, n + err.len()) =~= err);
    assert(occurs_at(m, err, n));
}

/// A client of this version is admitted exactly where its key permits its name and the
/// server allows its target to that name: the version shuts none out.
pub proof fn own_clients_are_admitted(
    config: ServerConfig,
    permitted: Seq<Seq<char>>,
    hello: ClientHello,
    target: Seq<char>,
    client_name: Seq<char>,
    answer: Admission,
)
    requires
        introduces(hello, target, client_name),
        answers(config, permitted, hello, answer),
    ensures
        answer.outcome is Admit <==> permitted.contains(client_name) && exists|i: int| #[trigger]
            lets_in(config, hello, i),
        answer.outcome is Admit ==> answer.outcome->Admit_0.target@ == target,
        hello.client_name@ == client_name,
{
    admission_is_by_name_and_target(config, permitted, hello, answer);
    lemma_own_version_agrees();
}

proof fn lemma_own_version_agrees()
    ensures
        versions_agree(VERSION@, VERSION@),
{
    reveal_strlit("0.3.0");
    let (major, minor) = (seq!['0'], seq!['3']);
    decimal_reads_back(0);
    decimal_reads_back(3);
    assert(decimal_text(0) =~= major);
    assert(decimal_text(3) =~= minor);
    assert(major[0] == '0' && minor[0] == '3');
    patch_releases_agree(major, minor, major, major);
    assert(VERSION@ =~= major.push('.') + (minor.push('.') + major));
}

/// A client goes on exactly where the server said that it is well, and otherwise gives the
/// server's reason.
pub proof fn refusals_are_heeded(status: ServerStatus, r: Result<(), String>)
    requires
        heeds(status, r),
    ensures
        r is Ok <==> status.ok,
        r is Err ==> occurs(r->Err_0@, status.message@),
        r is Err ==> r->Err_0@ == "server rejected connection: "@ + status.message@,
{
    if let Err(e) = r {
        let n = "server rejected connection: "@.len() as int;
        assert(e@.subrange(n, n + status.message@.len()) =~= status.message@);
        assert(occurs_at(e@, status.message@, n));
    }
}

} // verus!
