//! The handshake: who may send where, and what the server has already.

use crate::config::ServerConfig;
use crate::number::{bounded_value, parse_u64};
use crate::ops::list::{list, listing};
use crate::protocol::codec::{ClientHello, ServerHello, ServerStatus};
use crate::text::{
    copy_list, cut, find_entry, lemma_cut_join, list_contains, lookup, opt_text, split_once,
    str_texts, strs_contain, texts,
};
use crate::zfs::client::ClientError;
use crate::VERSION;
use vstd::prelude::*;
use vstd::string::*;

verus! {

/// What the client learned.
#[derive(Debug)]
pub struct ClientHandshakeResult {
    pub hello: ServerHello,
}

/// What the server agreed to.
#[derive(Debug)]
pub struct ServerHandshakeResult {
    pub target: String,
    pub zfs_receive_opts: Vec<String>,
}

// ---------------------------------------------------------------------------
// Versions
// ---------------------------------------------------------------------------

/// The first two numbers of a version, where they are numbers that a `u64` holds.
pub open spec fn major_minor(version: Seq<char>) -> Option<(int, int)> {
    match cut(version, '.') {
        Some((major, rest)) => {
            let minor = match cut(rest, '.') {
                Some((m, _)) => m,
                None => rest,
            };
            match (
                bounded_value(major, u64::MAX as int),
                bounded_value(minor, u64::MAX as int),
            ) {
                (Some(a), Some(b)) => Some((a, b)),
                _ => None,
            }
        },
        None => None,
    }
}

/// Whether two versions can talk: both have a major and a minor number, and these
/// are the same.
pub open spec fn versions_agree(client: Seq<char>, server: Seq<char>) -> bool {
    major_minor(client) is Some && major_minor(client) == major_minor(server)
}

/// Versions that differ only in what follows the minor number agree, where they
/// are versions at all.
pub proof fn patch_releases_agree(
    major: Seq<char>,
    minor: Seq<char>,
    patch: Seq<char>,
    other: Seq<char>,
)
    requires
        !major.contains('.'),
        !minor.contains('.'),
        bounded_value(major, u64::MAX as int) is Some,
        bounded_value(minor, u64::MAX as int) is Some,
    ensures
        versions_agree(
            major.push('.') + (minor.push('.') + patch),
            major.push('.') + (minor.push('.') + other),
        ),
{
    lemma_cut_join(major, '.', minor.push('.') + patch);
    lemma_cut_join(major, '.', minor.push('.') + other);
    lemma_cut_join(minor, '.', patch);
    lemma_cut_join(minor, '.', other);
}

/// Agreement does not depend on which side asks, and carries over.
pub proof fn agreement_is_mutual(a: Seq<char>, b: Seq<char>, c: Seq<char>)
    ensures
        versions_agree(a, b) == versions_agree(b, a),
        versions_agree(a, b) && versions_agree(b, c) ==> versions_agree(a, c),
{
}

fn parse_major_minor(version: &str) -> (r: Option<(u64, u64)>)
    ensures
        match r {
            Some((a, b)) => major_minor(version@) == Some((a as int, b as int)),
            None => major_minor(version@) is None,
        },
{
    match split_once(version, '.') {
        Some((major, rest)) => {
            let minor = match split_once(rest.as_str(), '.') {
                Some((m, _)) => m,
                None => rest,
            };
            match (parse_u64(major.as_str()), parse_u64(minor.as_str())) {
                (Some(a), Some(b)) => Some((a, b)),
                _ => None,
            }
        },
        None => None,
    }
}

/// Whether two versions can talk.
pub fn version_compatible(client: &str, server: &str) -> (r: bool)
    ensures
        r == versions_agree(client@, server@),
{
    match (parse_major_minor(client), parse_major_minor(server)) {
        (Some((a, b)), Some((c, d))) => a == c && b == d,
        _ => false,
    }
}

// ---------------------------------------------------------------------------
// The client's side
// ---------------------------------------------------------------------------

/// Whether the client says so first.
pub open spec fn introduces(hello: ClientHello, target: Seq<char>, client_name: Seq<char>) -> bool {
    hello.version@ == VERSION@ && hello.client_name@ == client_name && hello.target@ == target
}

/// What the client says first.
pub fn client_hello(target: &str, client_name: &str) -> (r: ClientHello)
    ensures
        introduces(r, target@, client_name@),
{
    ClientHello {
        version: VERSION.to_owned(),
        client_name: client_name.to_owned(),
        target: target.to_owned(),
    }
}

/// Whether `r` is what the client makes of the server's first status.
pub open spec fn heeds(status: ServerStatus, r: Result<(), String>) -> bool {
    match r {
        Ok(_) => status.ok,
        Err(e) => !status.ok && e@ == "server rejected connection: "@ + status.message@,
    }
}

/// What the client makes of the server's first status: it goes on, or gives the
/// reason the server gave.
pub fn client_handshake(version_status: &ServerStatus) -> (r: Result<(), String>)
    ensures
        heeds(*version_status, r),
{
    if version_status.ok {
        Ok(())
    } else {
        Err("server rejected connection: ".to_owned().concat(version_status.message.as_str()))
    }
}

// ---------------------------------------------------------------------------
// The server's side
// ---------------------------------------------------------------------------

/// What follows the replies to a request.
#[derive(Debug)]
pub enum Outcome {
    /// The connection ends: the client was told why.
    Close,
    /// The transfer may be prepared.
    Admit(ServerHandshakeResult),
}

/// The server's answer to a request.
#[derive(Debug)]
pub struct Admission {
    /// The statuses to send, in this order.
    pub replies: Vec<ServerStatus>,
    pub outcome: Outcome,
}

/// What the server tells a client of another version.
pub open spec fn version_mismatch(client: Seq<char>) -> Seq<char> {
    "version mismatch: client "@ + client + ", server "@ + VERSION@
}

/// Whether a request is to be admitted: the versions agree, the client is
/// permitted and configured, and it may send to the target.
pub open spec fn admissible(
    config: ServerConfig,
    permitted: Seq<Seq<char>>,
    request: ClientHello,
) -> bool {
    &&& versions_agree(request.version@, VERSION@)
    &&& permitted.contains(request.client_name@)
    &&& match lookup(config.clients@, request.client_name@) {
        Some(client) => texts(client.allow@).contains(request.target@),
        None => false,
    }
}

/// Whether `answer` is the server's answer to a request. A request from another
/// version is refused at once. Any other is told that the version is fine, and
/// then refused where the client is not permitted, is not configured, or may not
/// send to the target.
pub open spec fn answers(
    config: ServerConfig,
    permitted: Seq<Seq<char>>,
    request: ClientHello,
    answer: Admission,
) -> bool {
    let replies = answer.replies@;
    if !versions_agree(request.version@, VERSION@) {
        &&& replies.len() == 1
        &&& replies[0].says(false, version_mismatch(request.version@))
        &&& answer.outcome is Close
    } else {
        &&& replies.len() >= 1
        &&& replies[0].says(true, "ok"@)
        &&& if !permitted.contains(request.client_name@) {
            &&& replies.len() == 2
            &&& replies[1].says(false, "unknown client: "@ + request.client_name@)
            &&& answer.outcome is Close
        } else {
            match lookup(config.clients@, request.client_name@) {
                None => {
                    &&& replies.len() == 2
                    &&& replies[1].says(false, "unknown client: "@ + request.client_name@)
                    &&& answer.outcome is Close
                },
                Some(client) => if !texts(client.allow@).contains(request.target@) {
                    &&& replies.len() == 2
                    &&& replies[1].says(false, "dataset not allowed: "@ + request.target@)
                    &&& answer.outcome is Close
                } else {
                    &&& replies.len() == 1
                    &&& match answer.outcome {
                        Outcome::Admit(result) => result.target@ == request.target@
                            && result.zfs_receive_opts@ == client.zfs_receive_opts@,
                        _ => false,
                    }
                },
            }
        }
    }
}

/// The server's answer to a request.
pub fn server_handshake(
    config: &ServerConfig,
    permitted_clients: &[&str],
    request: ClientHello,
) -> (r: Admission)
    ensures
        answers(*config, str_texts(permitted_clients@), request, r),
{
    let mut replies: Vec<ServerStatus> = Vec::new();
    if !version_compatible(request.version.as_str(), VERSION) {
        let message = "version mismatch: client ".to_owned().concat(
            request.version.as_str(),
        ).concat(", server ").concat(VERSION);
        replies.push(ServerStatus { ok: false, message });
        return Admission { replies, outcome: Outcome::Close };
    }
    replies.push(ServerStatus { ok: true, message: "ok".to_owned() });

    if !strs_contain(permitted_clients, request.client_name.as_str()) {
        let message = "unknown client: ".to_owned().concat(request.client_name.as_str());
        replies.push(ServerStatus { ok: false, message });
        return Admission { replies, outcome: Outcome::Close };
    }
    match find_entry(&config.clients, request.client_name.as_str()) {
        None => {
            let message = "unknown client: ".to_owned().concat(request.client_name.as_str());
            replies.push(ServerStatus { ok: false, message });
            Admission { replies, outcome: Outcome::Close }
        },
        Some(client) => {
            if !list_contains(client.allow.as_slice(), request.target.as_str()) {
                let message = "dataset not allowed: ".to_owned().concat(request.target.as_str());
                replies.push(ServerStatus { ok: false, message });
                Admission { replies, outcome: Outcome::Close }
            } else {
                let zfs_receive_opts = copy_list(client.zfs_receive_opts.as_slice());
                let result = ServerHandshakeResult { target: request.target, zfs_receive_opts };
                Admission { replies, outcome: Outcome::Admit(result) }
            }
        },
    }
}

/// A transfer is prepared for admissible requests and no others, and only to the
/// dataset that was asked for.
pub proof fn only_admissible_requests_are_admitted(
    config: ServerConfig,
    permitted: Seq<Seq<char>>,
    request: ClientHello,
    answer: Admission,
)
    requires
        answers(config, permitted, request, answer),
    ensures
        answer.outcome is Admit <==> admissible(config, permitted, request),
        match answer.outcome {
            Outcome::Admit(result) => result.target@ == request.target@,
            _ => true,
        },
{
}

/// A request that is turned away is told so, and the connection ends in good order:
/// the last status says no. One that is admitted hears no refusal.
pub proof fn refusals_are_answered(
    config: ServerConfig,
    permitted: Seq<Seq<char>>,
    request: ClientHello,
    answer: Admission,
)
    requires
        answers(config, permitted, request, answer),
    ensures
        answer.replies@.len() > 0,
        answer.replies@.last().ok <==> admissible(config, permitted, request),
        answer.outcome is Close <==> !admissible(config, permitted, request),
{
}

/// Text of an error with what was being done before it.
pub open spec fn in_context(what: Seq<char>, err: Seq<char>) -> Seq<char> {
    what + ": "@ + err
}

/// The newest managed snapshot among `raw`.
pub open spec fn head_of(raw: Seq<Seq<char>>) -> Option<Seq<char>> {
    if listing(raw).len() == 0 {
        None
    } else {
        Some(listing(raw).last())
    }
}

/// What the server tells an admitted client: its newest managed snapshot of the
/// target and the token of an interrupted transfer. `token` is what
/// `zfs::client::get_resume_token` gave, and `snapshots` what
/// `zfs::client::list_snapshots` gave.
pub fn server_hello(
    token: Result<Option<String>, ClientError>,
    snapshots: Result<Vec<String>, ClientError>,
) -> (r: Result<ServerHello, String>)
    ensures
        match (token, snapshots) {
            (Err(e), _) => r is Err && r->Err_0@ == in_context("checking resume token"@, e.text()),
            (Ok(_), Err(e)) => r is Err && r->Err_0@ == in_context("listing snapshots"@, e.text()),
            (Ok(t), Ok(raw)) => {
                &&& r is Ok
                &&& r->Ok_0.version@ == VERSION@
                &&& opt_text(r->Ok_0.head) == head_of(texts(raw@))
                &&& r->Ok_0.resume_token == t
            },
        },
{
    match token {
        Err(e) => Err("checking resume token".to_owned().concat(": ").concat(e.message().as_str())),
        Ok(resume_token) => match snapshots {
            Err(e) => Err("listing snapshots".to_owned().concat(": ").concat(e.message().as_str())),
            Ok(raw) => {
                let snaps = list(raw.as_slice());
                let n: usize = snaps.len();
                let head = if n == 0 {
                    None
                } else {
                    assert(texts(snaps@).last() == snaps@[n - 1]@);
                    Some(snaps[n - 1].clone())
                };
                Ok(ServerHello { version: VERSION.to_owned(), head, resume_token })
            },
        },
    }
}

} // verus!
