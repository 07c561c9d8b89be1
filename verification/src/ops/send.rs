//! Sending: what to send to which remote, and the sending side of a session.

use crate::config::{RemoteConfig, RemoteTargets, ServerConfig, SourceConfig};
use crate::ops::list::{list, listing};
use crate::protocol::codec::{ClientHello, ClientReady, CodecError, ServerHello, ServerStatus};
use crate::protocol::handshake::{
    answers, client_handshake, client_hello, in_context, version_mismatch, versions_agree, Admission,
};
use crate::text::{
    copy_list, cut, find_entry, lookup, opt_text, split_once, str_eq, str_texts, strs_contain,
    texts,
};
use crate::tui::SendEvent;
use crate::zfs::client::{
    lossless, lossy_text, released, utf8_lossy, ClientError, CommandOutput, ZfsCommand,
};
use crate::zfs::estimator::{
    letters_known, parse_estimated_size, size_text, size_value, EstimatorError,
};
use crate::VERSION;
use vstd::prelude::*;
use vstd::string::*;

verus! {

// ---------------------------------------------------------------------------
// What to send
// ---------------------------------------------------------------------------

/// What the handshake leads to.
#[derive(Debug, PartialEq, Eq)]
pub enum TransferDecision {
    /// The remote has the latest snapshot.
    AlreadyUpToDate,
    /// The remote has no snapshots: the whole stream is sent.
    FullSend,
    /// An interrupted transfer goes on.
    ResumeSend { token: String },
    /// The stream from `base` on is sent.
    IncrementalSend { base: String },
}

/// The name behind the `@` of a snapshot.
pub open spec fn snapshot_part(snapshot: Seq<char>) -> Option<Seq<char>> {
    match cut(snapshot, '@') {
        Some((_, name)) => Some(name),
        None => None,
    }
}

/// The name behind the `@`, or all of it without one.
pub open spec fn snapshot_suffix(snapshot: Seq<char>) -> Seq<char> {
    match snapshot_part(snapshot) {
        Some(name) => name,
        None => snapshot,
    }
}

/// The name by which the remote's head is looked up.
pub open spec fn head_name(head: Seq<char>) -> Seq<char> {
    match snapshot_part(head) {
        Some(name) => name,
        None => ""@,
    }
}

/// Whether the remote's head is the latest snapshot.
pub open spec fn is_on_remote(head: Option<Seq<char>>, latest: Seq<char>) -> bool {
    match head {
        Some(h) => snapshot_part(h) == Some(snapshot_suffix(latest)),
        None => false,
    }
}

/// The first of `local` whose part behind the `@` is `name`.
pub open spec fn local_named(local: Seq<Seq<char>>, name: Seq<char>) -> Option<Seq<char>>
    decreases local.len(),
{
    if local.len() == 0 {
        None
    } else if snapshot_part(local[0]) == Some(name) {
        Some(local[0])
    } else {
        local_named(local.drop_first(), name)
    }
}

/// What is said when the remote's head is not among the local snapshots.
pub open spec fn diverged(name: Seq<char>) -> Seq<char> {
    "histories have diverged: the Remote's most recent snapshot `"@ + name
        + "` does not exist locally.\n\nThis usually means the snapshot was deleted on this machine while not yet deleted on the Remote, or the Remote was restored from a different backup.\n\nTo recover: delete any snapshots on the Remote that are newer than the most recent snapshot shared with this machine, then retry."@
}

/// Whether `decision` is what the handshake leads to. That the remote has the
/// latest snapshot comes before a token, and a token before a base.
pub open spec fn decides(
    hello: ServerHello,
    local: Seq<Seq<char>>,
    latest: Seq<char>,
    decision: Result<TransferDecision, String>,
) -> bool {
    if is_on_remote(opt_text(hello.head), latest) {
        decision == Ok::<TransferDecision, String>(TransferDecision::AlreadyUpToDate)
    } else {
        match hello.resume_token {
            Some(t) => match decision {
                Ok(TransferDecision::ResumeSend { token }) => token@ == t@,
                _ => false,
            },
            None => match hello.head {
                None => decision == Ok::<TransferDecision, String>(TransferDecision::FullSend),
                Some(head) => match local_named(local, head_name(head@)) {
                    Some(snapshot) => match decision {
                        Ok(TransferDecision::IncrementalSend { base }) => base@ == snapshot,
                        _ => false,
                    },
                    None => match decision {
                        Err(e) => e@ == diverged(head_name(head@)),
                        Ok(_) => false,
                    },
                },
            },
        }
    }
}

/// What the handshake leads to, with `local` the local snapshots and `latest` the
/// one to send.
pub fn decide_transfer(hello: &ServerHello, local_snaps: &[String], latest: &str) -> (r: Result<
    TransferDecision,
    String,
>)
    ensures
        decides(*hello, texts(local_snaps@), latest@, r),
{
    let suffix = match split_once(latest, '@') {
        Some((_, name)) => name,
        None => latest.to_owned(),
    };
    let head_part = match &hello.head {
        Some(head) => match split_once(head.as_str(), '@') {
            Some((_, name)) => Some(name),
            None => None,
        },
        None => None,
    };
    if let Some(name) = &head_part {
        if str_eq(name.as_str(), suffix.as_str()) {
            return Ok(TransferDecision::AlreadyUpToDate);
        }
    }
    if let Some(token) = &hello.resume_token {
        return Ok(TransferDecision::ResumeSend { token: token.clone() });
    }
    if hello.head.is_none() {
        return Ok(TransferDecision::FullSend);
    }
    let name = match head_part {
        Some(name) => name,
        None => "".to_owned(),
    };
    let ghost local = texts(local_snaps@);
    let mut i: usize = 0;
    assert(local.skip(0) =~= local);
    while i < local_snaps.len()
        invariant
            i <= local_snaps@.len(),
            local == texts(local_snaps@),
            hello.head is Some,
            hello.resume_token is None,
            !is_on_remote(opt_text(hello.head), latest@),
            name@ == head_name(hello.head->0@),
            local_named(local, name@) == local_named(local.skip(i as int), name@),
        decreases local_snaps@.len() - i,
    {
        let snapshot = &local_snaps[i];
        assert(local.skip(i as int)[0] == snapshot@);
        assert(local.skip(i as int).drop_first() =~= local.skip(i + 1));
        if let Some((_, part)) = split_once(snapshot.as_str(), '@') {
            if str_eq(part.as_str(), name.as_str()) {
                return Ok(TransferDecision::IncrementalSend { base: snapshot.clone() });
            }
        }
        i = i + 1;
    }
    let text = "histories have diverged: the Remote's most recent snapshot `".to_owned().concat(
        name.as_str(),
    ).concat(
        "` does not exist locally.\n\nThis usually means the snapshot was deleted on this machine while not yet deleted on the Remote, or the Remote was restored from a different backup.\n\nTo recover: delete any snapshots on the Remote that are newer than the most recent snapshot shared with this machine, then retry.",
    );
    Err(text)
}

/// A base that is chosen is a local snapshot, under the name of the remote's head.
pub proof fn base_is_the_shared_snapshot(local: Seq<Seq<char>>, name: Seq<char>)
    ensures
        match local_named(local, name) {
            Some(snapshot) => local.contains(snapshot) && snapshot_part(snapshot) == Some(name),
            None => forall|i: int| 0 <= i < local.len() ==> snapshot_part(#[trigger] local[i])
                != Some(name),
        },
    decreases local.len(),
{
    if local.len() > 0 && snapshot_part(local[0]) != Some(name) {
        let rest = local.drop_first();
        base_is_the_shared_snapshot(rest, name);
        match local_named(rest, name) {
            Some(snapshot) => {
                let k = choose|k: int| 0 <= k < rest.len() && rest[k] == snapshot;
                assert(local[k + 1] == snapshot);
            },
            None => {
                assert forall|i: int| 0 <= i < local.len() implies snapshot_part(
                    #[trigger] local[i],
                ) != Some(name) by {
                    if i > 0 {
                        assert(rest[i - 1] == local[i]);
                    }
                }
            },
        }
    }
}

/// The command that writes the stream, and the command that estimates its size.
pub fn stream_commands(decision: &TransferDecision, latest: &str, opts: &Vec<String>) -> (r: Option<
    (ZfsCommand, ZfsCommand),
>)
    ensures
        match *decision {
            TransferDecision::AlreadyUpToDate => r is None,
            TransferDecision::FullSend => match r {
                Some((
                    ZfsCommand::Send { base, snapshot, opts: o },
                    ZfsCommand::EstimateSend { base: b, snapshot: s, opts: p },
                )) => base is None && b is None && snapshot@ == latest@ && s@ == latest@ && o@
                    == opts@ && p@ == opts@,
                _ => false,
            },
            TransferDecision::ResumeSend { token } => match r {
                Some((
                    ZfsCommand::SendResume { token: t, opts: o },
                    ZfsCommand::EstimateResume { token: u, opts: p },
                )) => t@ == token@ && u@ == token@ && o@ == opts@ && p@ == opts@,
                _ => false,
            },
            TransferDecision::IncrementalSend { base } => match r {
                Some((
                    ZfsCommand::Send { base: b, snapshot, opts: o },
                    ZfsCommand::EstimateSend { base: c, snapshot: s, opts: p },
                )) => opt_text(b) == Some(base@) && opt_text(c) == Some(base@) && snapshot@
                    == latest@ && s@ == latest@ && o@ == opts@ && p@ == opts@,
                _ => false,
            },
        },
{
    match decision {
        TransferDecision::AlreadyUpToDate => None,
        TransferDecision::FullSend => Some(
            (
                ZfsCommand::Send {
                    base: None,
                    snapshot: latest.to_owned(),
                    opts: copy_list(opts.as_slice()),
                },
                ZfsCommand::EstimateSend {
                    base: None,
                    snapshot: latest.to_owned(),
                    opts: copy_list(opts.as_slice()),
                },
            ),
        ),
        TransferDecision::ResumeSend { token } => Some(
            (
                ZfsCommand::SendResume { token: token.clone(), opts: copy_list(opts.as_slice()) },
                ZfsCommand::EstimateResume {
                    token: token.clone(),
                    opts: copy_list(opts.as_slice()),
                },
            ),
        ),
        TransferDecision::IncrementalSend { base } => Some(
            (
                ZfsCommand::Send {
                    base: Some(base.clone()),
                    snapshot: latest.to_owned(),
                    opts: copy_list(opts.as_slice()),
                },
                ZfsCommand::EstimateSend {
                    base: Some(base.clone()),
                    snapshot: latest.to_owned(),
                    opts: copy_list(opts.as_slice()),
                },
            ),
        ),
    }
}

// ---------------------------------------------------------------------------
// How much there is to send
// ---------------------------------------------------------------------------

/// The size that some output gives; zero where it gives none.
pub open spec fn estimate_in(output: Seq<char>) -> int {
    match size_text(output) {
        Some(text) => match size_value(text) {
            Some(size) => size,
            None => 0,
        },
        None => 0,
    }
}

/// Whether the letters are known in the size that some output gives.
pub open spec fn estimate_known(output: Seq<char>) -> bool {
    size_text(output) is Some ==> letters_known(size_text(output)->0)
}

/// The size that some output gives; zero where it gives none.
pub fn estimate_from_output(output: &str) -> (r: u64)
    ensures
        r == estimate_in(output@),
        estimate_known(output@),
{
    match parse_estimated_size(output) {
        Ok(size) => size,
        Err(_) => 0,
    }
}

/// Whether `r` is the estimate of `EstimateResume`, when it went so.
pub open spec fn estimates_resume(ran: Result<CommandOutput, String>, r: u64) -> bool {
    match ran {
        Ok(output) => {
            let combined = lossy_text(output.stderr@) + "\n"@ + lossy_text(output.stdout@);
            &&& r == estimate_in(combined)
            &&& estimate_known(combined)
            &&& lossless(output.stdout@)
            &&& lossless(output.stderr@)
        },
        Err(_) => r == 0,
    }
}

/// The estimate of `EstimateResume`: what it printed to stderr comes first. Where it
/// did not run, the size counts as zero.
pub fn estimate_resume_size(ran: Result<CommandOutput, String>) -> (r: u64)
    ensures
        estimates_resume(ran, r),
{
    match ran {
        Ok(output) => {
            let combined = utf8_lossy(output.stderr.as_slice()).concat("\n").concat(
                utf8_lossy(output.stdout.as_slice()).as_str(),
            );
            estimate_from_output(combined.as_str())
        },
        Err(_) => 0,
    }
}

/// Whether `r` is the estimate of `EstimateSend`, when it went so.
pub open spec fn estimates_send(
    ran: Result<CommandOutput, String>,
    r: Result<u64, String>,
) -> bool {
    match ran {
        Ok(output) => {
            let combined = lossy_text(output.stdout@) + "\n"@ + lossy_text(output.stderr@);
            &&& match size_text(combined) {
                Some(text) => match size_value(text) {
                    Some(size) => r is Ok && r->Ok_0 == size,
                    None => r is Err && r->Err_0@ == "could not parse size value '"@ + text + "'"@,
                },
                None => r is Err && r->Err_0@ == EstimatorError::LineMissing.text(),
            }
            &&& estimate_known(combined)
            &&& lossless(output.stdout@)
            &&& lossless(output.stderr@)
        },
        Err(e) => r is Err && r->Err_0@ == in_context("running zfs send -n -v"@, e@),
    }
}

/// The estimate of `EstimateSend`: what it printed to stdout comes first.
pub fn estimate_size(ran: Result<CommandOutput, String>) -> (r: Result<u64, String>)
    ensures
        estimates_send(ran, r),
{
    match ran {
        Ok(output) => {
            let combined = utf8_lossy(output.stdout.as_slice()).concat("\n").concat(
                utf8_lossy(output.stderr.as_slice()).as_str(),
            );
            match parse_estimated_size(combined.as_str()) {
                Ok(size) => Ok(size),
                Err(e) => Err(e.message()),
            }
        },
        Err(e) => Err("running zfs send -n -v".to_owned().concat(": ").concat(e.as_str())),
    }
}

// ---------------------------------------------------------------------------
// Whom to send to
// ---------------------------------------------------------------------------

/// A remote to send to: its name, its configuration, and the dataset there.
pub type Task<'a> = (&'a str, &'a RemoteConfig, &'a str);

/// Whether the filter lets a remote through. Without a filter all are let through.
pub open spec fn is_chosen(filter: Option<&[&str]>, remote: Seq<char>) -> bool {
    match filter {
        Some(names) => str_texts(names@).contains(remote),
        None => true,
    }
}

/// The first chosen remote that is not configured.
pub open spec fn first_unknown(
    targets: Seq<(String, String)>,
    filter: Option<&[&str]>,
    remotes: Seq<(String, RemoteConfig)>,
) -> Option<Seq<char>>
    decreases targets.len(),
{
    if targets.len() == 0 {
        None
    } else if is_chosen(filter, targets[0].0@) && lookup(remotes, targets[0].0@) is None {
        Some(targets[0].0@)
    } else {
        first_unknown(targets.drop_first(), filter, remotes)
    }
}

/// Whether `tasks` are the chosen ones of `targets`, in order, with their
/// configurations.
pub open spec fn are_tasks(
    tasks: Seq<Task<'_>>,
    targets: Seq<(String, String)>,
    filter: Option<&[&str]>,
    remotes: Seq<(String, RemoteConfig)>,
) -> bool
    decreases targets.len(),
{
    if targets.len() == 0 {
        tasks.len() == 0
    } else {
        let (name, target) = targets.last();
        if is_chosen(filter, name@) {
            &&& tasks.len() > 0
            &&& tasks.last().0@ == name@
            &&& lookup(remotes, name@) == Some(*tasks.last().1)
            &&& tasks.last().2@ == target@
            &&& are_tasks(tasks.drop_last(), targets.drop_last(), filter, remotes)
        } else {
            are_tasks(tasks, targets.drop_last(), filter, remotes)
        }
    }
}

/// What is said of a remote that is not configured.
pub open spec fn unknown_remote(name: Seq<char>) -> Seq<char> {
    "remote '"@ + name + "' not in config"@
}

/// Whether `r` is what the choice of remotes comes to: the tasks, or an error that names
/// the first chosen remote that is not configured.
pub open spec fn collects(
    targets: Seq<(String, String)>,
    filter: Option<&[&str]>,
    remotes: Seq<(String, RemoteConfig)>,
    r: Result<Vec<Task<'_>>, String>,
) -> bool {
    match first_unknown(targets, filter, remotes) {
        Some(name) => r is Err && r->Err_0@ == unknown_remote(name),
        None => r is Ok && are_tasks(r->Ok_0@, targets, filter, remotes),
    }
}

/// The remotes to send a dataset to: those with a target that the filter lets
/// through. One that is not configured is an error.
pub fn collect_tasks<'a>(
    dataset_remotes: &'a RemoteTargets,
    remote_filter: Option<&[&str]>,
    all_remotes: &'a Vec<(String, RemoteConfig)>,
) -> (r: Result<Vec<Task<'a>>, String>)
    ensures
        collects(dataset_remotes@, remote_filter, all_remotes@, r),
{
    let mut tasks: Vec<Task<'a>> = Vec::new();
    let mut i: usize = 0;
    let ghost targets = dataset_remotes@;
    assert(targets.skip(0) =~= targets);
    while i < dataset_remotes.len()
        invariant
            i <= dataset_remotes@.len(),
            targets == dataset_remotes@,
            first_unknown(targets, remote_filter, all_remotes@) == first_unknown(
                targets.skip(i as int),
                remote_filter,
                all_remotes@,
            ),
            are_tasks(tasks@, targets.take(i as int), remote_filter, all_remotes@),
        decreases dataset_remotes@.len() - i,
    {
        let name = dataset_remotes[i].0.as_str();
        let target = dataset_remotes[i].1.as_str();
        proof {
            assert(targets.skip(i as int)[0] == targets[i as int]);
            assert(targets.skip(i as int).drop_first() =~= targets.skip(i + 1));
            assert(targets.take(i + 1).drop_last() =~= targets.take(i as int));
            assert(targets.take(i + 1).last() == targets[i as int]);
        }
        let chosen = match remote_filter {
            Some(names) => strs_contain(names, name),
            None => true,
        };
        if chosen {
            match find_entry(all_remotes, name) {
                None => {
                    return Err("remote '".to_owned().concat(name).concat("' not in config"));
                },
                Some(remote) => {
                    let ghost before = tasks@;
                    tasks.push((name, remote, target));
                    assert(tasks@.drop_last() =~= before);
                },
            }
        }
        i = i + 1;
    }
    assert(targets.take(targets.len() as int) =~= targets);
    Ok(tasks)
}

/// What one dataset's send comes down to.
#[derive(Debug)]
pub struct SendPlan<'a> {
    /// The snapshot to send: the newest local one.
    pub latest: String,
    /// The local snapshots, oldest first.
    pub local_snaps: Vec<String>,
    pub tasks: Vec<Task<'a>>,
}

/// What is said of a dataset without snapshots.
pub open spec fn no_snapshots(dataset: Seq<char>) -> Seq<char> {
    "no local snapshots for '"@ + dataset + "'; run `zrb snapshot` first"@
}

/// What is said of a dataset without a mapping.
pub open spec fn unknown_dataset(dataset: Seq<char>) -> Seq<char> {
    "dataset '"@ + dataset + "' not found in config"@
}

/// Whether `r` is what to send of `dataset`, and whom to, when the pool gave these names:
/// the newest managed one, to the remotes that the filter lets through; or an error.
pub open spec fn plans(
    dataset: Seq<char>,
    raw: Result<Vec<String>, ClientError>,
    config: SourceConfig,
    filter: Option<&[&str]>,
    r: Result<SendPlan<'_>, String>,
) -> bool {
    match raw {
        Err(e) => r is Err && r->Err_0@ == in_context(
            "listing local snapshots for "@ + dataset,
            e.text(),
        ),
        Ok(names) => {
            let local = listing(texts(names@));
            if local.len() == 0 {
                r is Err && r->Err_0@ == no_snapshots(dataset)
            } else {
                match lookup(config.datasets@, dataset) {
                    None => r is Err && r->Err_0@ == unknown_dataset(dataset),
                    Some(targets) => match first_unknown(targets@, filter, config.remotes@) {
                        Some(name) => r is Err && r->Err_0@ == unknown_remote(name),
                        None => {
                            &&& r is Ok
                            &&& r->Ok_0.latest@ == local.last()
                            &&& texts(r->Ok_0.local_snaps@) == local
                            &&& are_tasks(r->Ok_0.tasks@, targets@, filter, config.remotes@)
                        },
                    },
                }
            }
        },
    }
}

/// What to send of `dataset`, and whom to. `raw` is what
/// `zfs::client::list_snapshots` gave for it.
pub fn send_one_dataset<'a>(
    dataset: &str,
    raw: Result<Vec<String>, ClientError>,
    config: &'a SourceConfig,
    remote_filter: Option<&[&str]>,
) -> (r: Result<SendPlan<'a>, String>)
    ensures
        plans(dataset@, raw, *config, remote_filter, r),
{
    let names = match raw {
        Ok(names) => names,
        Err(e) => {
            return Err(
                "listing local snapshots for ".to_owned().concat(dataset).concat(": ").concat(
                    e.message().as_str(),
                ),
            );
        },
    };
    let local_snaps = list(names.as_slice());
    let n: usize = local_snaps.len();
    if n == 0 {
        return Err(
            "no local snapshots for '".to_owned().concat(dataset).concat(
                "'; run `zrb snapshot` first",
            ),
        );
    }
    let latest = local_snaps[n - 1].clone();
    assert(texts(local_snaps@).last() == latest@);
    match find_entry(&config.datasets, dataset) {
        None => Err("dataset '".to_owned().concat(dataset).concat("' not found in config")),
        Some(targets) => match collect_tasks(targets, remote_filter, &config.remotes) {
            Ok(tasks) => Ok(SendPlan { latest, local_snaps, tasks }),
            Err(e) => Err(e),
        },
    }
}

/// The dataset of a snapshot, or all of it without an `@`.
pub open spec fn dataset_part(snapshot: Seq<char>) -> Seq<char> {
    match cut(snapshot, '@') {
        Some((dataset, _)) => dataset,
        None => snapshot,
    }
}

/// The dataset of a snapshot.
pub fn dataset_of(snapshot: &str) -> (r: String)
    ensures
        r@ == dataset_part(snapshot@),
{
    match split_once(snapshot, '@') {
        Some((dataset, _)) => dataset,
        None => snapshot.to_owned(),
    }
}

/// The key of the row that shows the transfer of a snapshot to a remote.
pub open spec fn row_key(latest: Seq<char>, remote_name: Seq<char>) -> Seq<char> {
    dataset_part(latest) + " \u{2192} "@ + remote_name
}

/// The key of the row that shows the transfer of a snapshot to a remote.
pub fn row_key_for(latest: &str, remote_name: &str) -> (r: String)
    ensures
        r@ == row_key(latest@, remote_name@),
{
    dataset_of(latest).concat(" \u{2192} ").concat(remote_name)
}

// ---------------------------------------------------------------------------
// The session
// ---------------------------------------------------------------------------

/// Why a transfer came to nothing.
#[derive(Debug, Clone, PartialEq, Eq)]
pub struct SendError {
    /// Whether the user gave up on it.
    pub cancelled: bool,
    /// What failed.
    pub message: String,
    /// Why it failed, where there is more to say.
    pub cause: Option<String>,
}

impl SendError {
    /// Whether this is the error with these fields.
    pub open spec fn is(self, cancelled: bool, message: Seq<char>, cause: Option<Seq<char>>) -> bool {
        self.cancelled == cancelled && self.message@ == message && opt_text(self.cause) == cause
    }

    /// What failed and why.
    pub open spec fn full_text(self) -> Seq<char> {
        match self.cause {
            Some(cause) => in_context(self.message@, cause@),
            None => self.message@,
        }
    }

    /// What failed and why.
    pub fn full_message(&self) -> (r: String)
        ensures
            r@ == self.full_text(),
    {
        match &self.cause {
            Some(cause) => self.message.clone().concat(": ").concat(cause.as_str()),
            None => self.message.clone(),
        }
    }
}

/// Whether the user gave up on the transfer.
pub fn is_cancelled(e: &SendError) -> (r: bool)
    ensures
        r == e.cancelled,
{
    e.cancelled
}

/// What is said when the remote reports a failure.
pub open spec fn receive_error(message: Seq<char>) -> Seq<char> {
    "remote error: "@ + message
        + "\nhint: the target dataset may need `zfs rollback` or the snapshots may conflict with the send stream; check `zfs allow` delegation on the server"@
}

/// What is said when the remote reports a failure.
pub fn remote_receive_error(message: &str) -> (r: String)
    ensures
        r@ == receive_error(message@),
{
    "remote error: ".to_owned().concat(message).concat(
        "\nhint: the target dataset may need `zfs rollback` or the snapshots may conflict with the send stream; check `zfs allow` delegation on the server",
    )
}

/// Where a session stands.
#[derive(Debug)]
pub enum SendState {
    /// The client's hello is being written.
    Opening,
    /// The server's word on the version is awaited.
    AwaitVersion,
    /// The server's hello is awaited.
    AwaitHello,
    /// `zfs send` is being started.
    AwaitSource { resume: bool },
    /// The client's readiness is being written.
    AwaitReady { total_bytes: u64 },
    /// The stream is being sent.
    Streaming { bytes_sent: u64 },
    /// The stream broke, and the server may say why.
    AwaitReason { error: CodecError },
    /// The stream is through, and the server's word on it is awaited.
    AwaitStatus { bytes_sent: u64 },
    /// The session is over.
    Finished,
}

/// What happened.
#[derive(Debug)]
pub enum SessionEvent {
    /// The client's hello was written, or not.
    HelloWritten(Result<(), CodecError>),
    /// The server's word on the version was read, or not.
    VersionRead(Result<ServerStatus, CodecError>),
    /// The server's hello was read, or not.
    HelloRead(Result<ServerHello, CodecError>),
    /// `zfs send` was started, with the estimated size of its stream, or not.
    SourceStarted(Result<u64, ClientError>),
    /// The client's readiness was written, or not.
    ReadyWritten(Result<(), CodecError>),
    /// A chunk is through, with so many bytes sent so far.
    ChunkSent(u64),
    /// The stream is through, or broke.
    StreamEnded(Result<(), CodecError>),
    /// The server's word on the transfer was read, or not.
    StatusRead(Result<ServerStatus, CodecError>),
}

/// What to do.
#[derive(Debug)]
pub enum SessionAction {
    /// Read the server's word on the version.
    ReadVersion,
    /// Read the server's hello.
    ReadHello,
    /// Start `zfs send`, and estimate the size of its stream.
    StartSource { stream: ZfsCommand, estimate: ZfsCommand },
    /// Write the client's readiness.
    WriteReady(ClientReady),
    /// Report the start, and send the stream, at most so many bytes in a second.
    Stream { total_bytes: u64, rate_limit: Option<u64> },
    /// Report progress, and go on with the stream.
    Report { bytes_sent: u64 },
    /// Read the server's word on the transfer.
    ReadStatus,
    /// Write the last message, if there is one, whether or not that works; and end.
    Finish { last: Option<ClientReady>, result: Result<u64, SendError> },
}

/// The sending side of a connection.
#[derive(Debug)]
pub struct SendSession {
    /// The snapshot to send.
    pub latest: String,
    /// The local snapshots, oldest first.
    pub local_snaps: Vec<String>,
    /// Options for `zfs send`.
    pub opts: Vec<String>,
    /// Most bytes to send in a second.
    pub rate_limit: Option<u64>,
    pub state: SendState,
}

/// Whether an event can happen in a state.
pub open spec fn can_happen(state: SendState, event: SessionEvent) -> bool {
    match (state, event) {
        (SendState::Opening, SessionEvent::HelloWritten(_)) => true,
        (SendState::AwaitVersion, SessionEvent::VersionRead(_)) => true,
        (SendState::AwaitHello, SessionEvent::HelloRead(_)) => true,
        (SendState::AwaitSource { .. }, SessionEvent::SourceStarted(_)) => true,
        (SendState::AwaitReady { .. }, SessionEvent::ReadyWritten(_)) => true,
        (SendState::Streaming { .. }, SessionEvent::ChunkSent(_)) => true,
        (SendState::Streaming { .. }, SessionEvent::StreamEnded(_)) => true,
        (SendState::AwaitReason { .. }, SessionEvent::StatusRead(_)) => true,
        (SendState::AwaitStatus { .. }, SessionEvent::StatusRead(_)) => true,
        _ => false,
    }
}

/// Whether the session ends with this error, without a last message.
pub open spec fn ends_with_error(
    state: SendState,
    action: SessionAction,
    cancelled: bool,
    message: Seq<char>,
    cause: Option<Seq<char>>,
) -> bool {
    &&& state is Finished
    &&& match action {
        SessionAction::Finish { last, result: Err(e) } => last is None && e.is(
            cancelled,
            message,
            cause,
        ),
        _ => false,
    }
}

/// Whether the session ends with so many bytes sent, without a last message.
pub open spec fn ends_with_bytes(state: SendState, action: SessionAction, bytes: u64) -> bool {
    &&& state is Finished
    &&& match action {
        SessionAction::Finish { last, result: Ok(b) } => last is None && b == bytes,
        _ => false,
    }
}

/// What `zfs send` is called in an error.
pub open spec fn source_name(resume: bool) -> Seq<char> {
    if resume {
        "zfs send -t"@
    } else {
        "zfs send"@
    }
}

/// Whether `next` and `action` follow from a decision on what to send.
pub open spec fn acts_on(
    session: SendSession,
    decision: Result<TransferDecision, String>,
    next: SendState,
    action: SessionAction,
) -> bool {
    match decision {
        Err(e) => ends_with_error(next, action, false, e@, None),
        Ok(TransferDecision::AlreadyUpToDate) => {
            &&& next is Finished
            &&& match action {
                SessionAction::Finish { last: Some(ready), result: Ok(bytes) } => bytes == 0
                    && ready.says(false, "already up to date"@),
                _ => false,
            }
        },
        Ok(TransferDecision::FullSend) => {
            &&& next == (SendState::AwaitSource { resume: false })
            &&& match action {
                SessionAction::StartSource {
                    stream: ZfsCommand::Send { base, snapshot, opts },
                    estimate: ZfsCommand::EstimateSend { base: b, snapshot: s, opts: o },
                } => base is None && b is None && snapshot@ == session.latest@ && s@
                    == session.latest@ && opts@ == session.opts@ && o@ == session.opts@,
                _ => false,
            }
        },
        Ok(TransferDecision::ResumeSend { token }) => {
            &&& next == (SendState::AwaitSource { resume: true })
            &&& match action {
                SessionAction::StartSource {
                    stream: ZfsCommand::SendResume { token: t, opts },
                    estimate: ZfsCommand::EstimateResume { token: u, opts: o },
                } => t@ == token@ && u@ == token@ && opts@ == session.opts@ && o@ == session.opts@,
                _ => false,
            }
        },
        Ok(TransferDecision::IncrementalSend { base }) => {
            &&& next == (SendState::AwaitSource { resume: false })
            &&& match action {
                SessionAction::StartSource {
                    stream: ZfsCommand::Send { base: b, snapshot, opts },
                    estimate: ZfsCommand::EstimateSend { base: c, snapshot: s, opts: o },
                } => opt_text(b) == Some(base@) && opt_text(c) == Some(base@) && snapshot@
                    == session.latest@ && s@ == session.latest@ && opts@ == session.opts@ && o@
                    == session.opts@,
                _ => false,
            }
        },
    }
}

/// Whether `next` and `action` are what an event leads to.
pub open spec fn session_step(
    session: SendSession,
    event: SessionEvent,
    next: SendState,
    action: SessionAction,
) -> bool {
    match (session.state, event) {
        (SendState::Opening, SessionEvent::HelloWritten(written)) => match written {
            Ok(_) => next is AwaitVersion && action is ReadVersion,
            Err(e) => ends_with_error(
                next,
                action,
                false,
                "writing ClientHello"@,
                Some(e.text()),
            ),
        },
        (SendState::AwaitVersion, SessionEvent::VersionRead(read)) => match read {
            Ok(status) => if status.ok {
                next is AwaitHello && action is ReadHello
            } else {
                ends_with_error(
                    next,
                    action,
                    false,
                    "server rejected connection: "@ + status.message@,
                    None,
                )
            },
            Err(e) => ends_with_error(
                next,
                action,
                false,
                "reading version ServerStatus"@,
                Some(e.text()),
            ),
        },
        (SendState::AwaitHello, SessionEvent::HelloRead(read)) => match read {
            Ok(hello) => exists|decision: Result<TransferDecision, String>|
                decides(hello, texts(session.local_snaps@), session.latest@, decision) && acts_on(
                    session,
                    decision,
                    next,
                    action,
                ),
            Err(e) => ends_with_error(
                next,
                action,
                false,
                "reading ServerHello"@,
                Some(e.text()),
            ),
        },
        (SendState::AwaitSource { resume }, SessionEvent::SourceStarted(started)) => match started {
            Ok(total) => {
                &&& next == (SendState::AwaitReady { total_bytes: total })
                &&& match action {
                    SessionAction::WriteReady(ready) => ready.says(true, "ok"@),
                    _ => false,
                }
            },
            Err(e) => {
                &&& next is Finished
                &&& match action {
                    SessionAction::Finish { last: Some(ready), result: Err(err) } => ready.says(
                        false,
                        source_name(resume),
                    ) && err.is(false, source_name(resume), Some(e.text())),
                    _ => false,
                }
            },
        },
        (SendState::AwaitReady { total_bytes }, SessionEvent::ReadyWritten(written)) => match written {
            Ok(_) => next == (SendState::Streaming { bytes_sent: 0 }) && action == (
            SessionAction::Stream { total_bytes, rate_limit: session.rate_limit }),
            Err(e) => ends_with_error(
                next,
                action,
                false,
                "writing ClientReady"@,
                Some(e.text()),
            ),
        },
        (SendState::Streaming { .. }, SessionEvent::ChunkSent(bytes)) => {
            next == (SendState::Streaming { bytes_sent: bytes }) && action == (
            SessionAction::Report { bytes_sent: bytes })
        },
        (SendState::Streaming { bytes_sent }, SessionEvent::StreamEnded(ended)) => match ended {
            Ok(_) => next == (SendState::AwaitStatus { bytes_sent }) && action is ReadStatus,
            Err(e) => if e is Cancelled {
                ends_with_error(next, action, true, "transferring stream"@, Some(e.text()))
            } else {
                next == (SendState::AwaitReason { error: e }) && action is ReadStatus
            },
        },
        (SendState::AwaitReason { error }, SessionEvent::StatusRead(read)) => match read {
            Ok(status) => if status.ok {
                ends_with_error(next, action, false, "transferring stream"@, Some(error.text()))
            } else {
                ends_with_error(next, action, false, receive_error(status.message@), None)
            },
            Err(_) => ends_with_error(
                next,
                action,
                false,
                "transferring stream"@,
                Some(error.text()),
            ),
        },
        (SendState::AwaitStatus { bytes_sent }, SessionEvent::StatusRead(read)) => match read {
            Ok(status) => if status.ok {
                ends_with_bytes(next, action, bytes_sent)
            } else {
                ends_with_error(next, action, false, receive_error(status.message@), None)
            },
            Err(e) => ends_with_error(
                next,
                action,
                false,
                "reading ServerStatus"@,
                Some(e.text()),
            ),
        },
        _ => false,
    }
}

fn failed(message: &str, cause: Option<String>) -> (r: (SendState, SessionAction))
    ensures
        ends_with_error(r.0, r.1, false, message@, opt_text(cause)),
{
    let error = SendError { cancelled: false, message: message.to_owned(), cause };
    (SendState::Finished, SessionAction::Finish { last: None, result: Err(error) })
}

fn act_on(decision: Result<TransferDecision, String>, latest: &str, opts: &Vec<String>) -> (r: (
    SendState,
    SessionAction,
))
    ensures
        forall|session: SendSession|
            session.latest@ == latest@ && session.opts@ == opts@ ==> #[trigger] acts_on(
                session,
                decision,
                r.0,
                r.1,
            ),
{
    match decision {
        Err(e) => failed(e.as_str(), None),
        Ok(decision) => {
            let resume = matches!(decision, TransferDecision::ResumeSend { .. });
            match stream_commands(&decision, latest, opts) {
                None => {
                    let ready = ClientReady { ok: false, message: "already up to date".to_owned() };
                    (
                        SendState::Finished,
                        SessionAction::Finish { last: Some(ready), result: Ok(0) },
                    )
                },
                Some((stream, estimate)) => (
                    SendState::AwaitSource { resume },
                    SessionAction::StartSource { stream, estimate },
                ),
            }
        },
    }
}

/// Whether a session and a hello are those with which `latest` begins to be sent to
/// `target` on a remote.
pub open spec fn begins(
    latest: Seq<char>,
    local_snaps: Seq<String>,
    remote: RemoteConfig,
    target: Seq<char>,
    client_name: Seq<char>,
    session: SendSession,
    hello: ClientHello,
) -> bool {
    &&& session.latest@ == latest
    &&& session.local_snaps@ == local_snaps
    &&& session.opts@ == remote.zfs_send_opts@
    &&& session.rate_limit == remote.bandwidth_limit
    &&& session.state is Opening
    &&& hello.version@ == VERSION@
    &&& hello.client_name@ == client_name
    &&& hello.target@ == target
}

/// Begins to send `latest` to `target` on a remote: the session, and the hello to
/// write first.
pub fn send_on(
    latest: &str,
    local_snaps: &[String],
    remote_cfg: &RemoteConfig,
    target: &str,
    client_name: &str,
) -> (r: (SendSession, ClientHello))
    ensures
        begins(latest@, local_snaps@, *remote_cfg, target@, client_name@, r.0, r.1),
{
    let session = SendSession {
        latest: latest.to_owned(),
        local_snaps: copy_list(local_snaps),
        opts: copy_list(remote_cfg.zfs_send_opts.as_slice()),
        rate_limit: remote_cfg.bandwidth_limit,
        state: SendState::Opening,
    };
    (session, client_hello(target, client_name))
}

impl SendSession {
    /// What an event leads to.
    pub fn step(self, event: SessionEvent) -> (r: (SendSession, SessionAction))
        requires
            can_happen(self.state, event),
        ensures
            session_step(self, event, r.0.state, r.1),
            r.0.latest == self.latest,
            r.0.local_snaps == self.local_snaps,
            r.0.opts == self.opts,
            r.0.rate_limit == self.rate_limit,
    {
        let ghost before = self;
        let SendSession { latest, local_snaps, opts, rate_limit, state } = self;
        let (state, action) = match (state, event) {
            (SendState::Opening, SessionEvent::HelloWritten(written)) => match written {
                Ok(_) => (SendState::AwaitVersion, SessionAction::ReadVersion),
                Err(e) => failed("writing ClientHello", Some(e.message())),
            },
            (SendState::AwaitVersion, SessionEvent::VersionRead(read)) => match read {
                Ok(status) => match client_handshake(&status) {
                    Ok(_) => (SendState::AwaitHello, SessionAction::ReadHello),
                    Err(e) => failed(e.as_str(), None),
                },
                Err(e) => failed("reading version ServerStatus", Some(e.message())),
            },
            (SendState::AwaitHello, SessionEvent::HelloRead(read)) => match read {
                Ok(hello) => {
                    let decision = decide_transfer(&hello, local_snaps.as_slice(), latest.as_str());
                    let ghost chosen = decision;
                    let (state, action) = act_on(decision, latest.as_str(), &opts);
                    assert(acts_on(before, chosen, state, action));
                    (state, action)
                },
                Err(e) => failed("reading ServerHello", Some(e.message())),
            },
            (SendState::AwaitSource { resume }, SessionEvent::SourceStarted(started)) => match started {
                Ok(total_bytes) => {
                    let ready = ClientReady { ok: true, message: "ok".to_owned() };
                    (SendState::AwaitReady { total_bytes }, SessionAction::WriteReady(ready))
                },
                Err(e) => {
                    let name = if resume {
                        "zfs send -t"
                    } else {
                        "zfs send"
                    };
                    let ready = ClientReady { ok: false, message: name.to_owned() };
                    let error = SendError {
                        cancelled: false,
                        message: name.to_owned(),
                        cause: Some(e.message()),
                    };
                    (
                        SendState::Finished,
                        SessionAction::Finish { last: Some(ready), result: Err(error) },
                    )
                },
            },
            (SendState::AwaitReady { total_bytes }, SessionEvent::ReadyWritten(written)) => match written {
                Ok(_) => (
                    SendState::Streaming { bytes_sent: 0 },
                    SessionAction::Stream { total_bytes, rate_limit },
                ),
                Err(e) => failed("writing ClientReady", Some(e.message())),
            },
            (SendState::Streaming { .. }, SessionEvent::ChunkSent(bytes_sent)) => (
                SendState::Streaming { bytes_sent },
                SessionAction::Report { bytes_sent },
            ),
            (SendState::Streaming { bytes_sent }, SessionEvent::StreamEnded(ended)) => match ended {
                Ok(_) => (SendState::AwaitStatus { bytes_sent }, SessionAction::ReadStatus),
                Err(CodecError::Cancelled) => {
                    let error = SendError {
                        cancelled: true,
                        message: "transferring stream".to_owned(),
                        cause: Some(CodecError::Cancelled.message()),
                    };
                    (
                        SendState::Finished,
                        SessionAction::Finish { last: None, result: Err(error) },
                    )
                },
                Err(error) => (SendState::AwaitReason { error }, SessionAction::ReadStatus),
            },
            (SendState::AwaitReason { error }, SessionEvent::StatusRead(read)) => {
                let reason = match read {
                    Ok(status) => if status.ok {
                        None
                    } else {
                        Some(remote_receive_error(status.message.as_str()))
                    },
                    Err(_) => None,
                };
                match reason {
                    Some(text) => failed(text.as_str(), None),
                    None => failed("transferring stream", Some(error.message())),
                }
            },
            (SendState::AwaitStatus { bytes_sent }, SessionEvent::StatusRead(read)) => match read {
                Ok(status) => if status.ok {
                    (
                        SendState::Finished,
                        SessionAction::Finish { last: None, result: Ok(bytes_sent) },
                    )
                } else {
                    failed(remote_receive_error(status.message.as_str()).as_str(), None)
                },
                Err(e) => failed("reading ServerStatus", Some(e.message())),
            },
            (state, _) => (state, SessionAction::ReadStatus),
        };
        (SendSession { latest, local_snaps, opts, rate_limit, state }, action)
    }
}

// ---------------------------------------------------------------------------
// Laws of the session
// ---------------------------------------------------------------------------

/// One step of a session.
pub struct Step {
    pub before: SendSession,
    pub event: SessionEvent,
    pub after: SendSession,
    pub action: SessionAction,
}

/// Whether `steps` is how a session went from its start on.
pub open spec fn is_run(steps: Seq<Step>) -> bool {
    &&& steps.len() > 0 ==> steps[0].before.state is Opening
    &&& forall|i: int|
        #![trigger steps[i]]
        0 <= i < steps.len() ==> session_step(
            steps[i].before,
            steps[i].event,
            steps[i].after.state,
            steps[i].action,
        )
    &&& forall|i: int|
        #![trigger steps[i]]
        0 < i < steps.len() ==> steps[i].before == steps[i - 1].after
}

/// Whether step `i` is one in which the server accepted the version.
pub open spec fn accepted_at(steps: Seq<Step>, i: int) -> bool {
    match steps[i].event {
        SessionEvent::VersionRead(Ok(status)) => status.ok,
        _ => false,
    }
}

/// Whether in step `i` the client said that it is ready.
pub open spec fn ready_at(steps: Seq<Step>, i: int) -> bool {
    match steps[i].action {
        SessionAction::WriteReady(ready) => ready.ok,
        _ => false,
    }
}

/// How far a session has come.
spec fn progress_made(state: SendState) -> int {
    match state {
        SendState::Opening => 0,
        SendState::AwaitVersion => 0,
        SendState::AwaitHello => 1,
        SendState::AwaitSource { .. } => 1,
        SendState::AwaitReady { .. } => 2,
        SendState::Streaming { .. } => 2,
        SendState::AwaitReason { .. } => 2,
        SendState::AwaitStatus { .. } => 2,
        SendState::Finished => 0,
    }
}

proof fn lemma_history(steps: Seq<Step>, i: int)
    requires
        is_run(steps),
        0 <= i < steps.len(),
    ensures
        progress_made(steps[i].before.state) >= 1 ==> exists|j: int|
            0 <= j < i && #[trigger] accepted_at(steps, j),
        progress_made(steps[i].before.state) >= 2 ==> exists|j: int|
            0 <= j < i && #[trigger] ready_at(steps, j),
    decreases i,
{
    if i > 0 {
        lemma_history(steps, i - 1);
        let p = steps[i - 1];
        assert(session_step(p.before, p.event, p.after.state, p.action));
        assert(steps[i].before == p.after);
        if progress_made(p.after.state) >= 1 && progress_made(p.before.state) == 0 {
            assert(accepted_at(steps, i - 1));
        }
        if progress_made(p.after.state) >= 2 && progress_made(p.before.state) < 2 {
            assert(ready_at(steps, i - 1));
        }
    }
}

/// However a session goes, a stream is sent, and its progress reported, only after
/// the server accepted the version and the client said that it is ready.
pub proof fn no_stream_before_both_sides_agree(steps: Seq<Step>, i: int)
    requires
        is_run(steps),
        0 <= i < steps.len(),
        steps[i].action is Stream || steps[i].action is Report,
    ensures
        exists|j: int| 0 <= j < i && #[trigger] accepted_at(steps, j),
        exists|j: int| 0 <= j < i && #[trigger] ready_at(steps, j),
{
    lemma_history(steps, i);
    let p = steps[i];
    assert(session_step(p.before, p.event, p.after.state, p.action));
    assert(progress_made(p.before.state) == 2);
}

/// Where the remote has the latest snapshot, nothing is sent and nothing is amiss:
/// the client says so and the session ends, whether or not a token is pending.
pub proof fn up_to_date_remote_gets_nothing(
    session: SendSession,
    hello: ServerHello,
    next: SendState,
    action: SessionAction,
)
    requires
        session.state is AwaitHello,
        is_on_remote(opt_text(hello.head), session.latest@),
        session_step(session, SessionEvent::HelloRead(Ok(hello)), next, action),
    ensures
        next is Finished,
        match action {
            SessionAction::Finish { last: Some(ready), result: Ok(bytes) } => bytes == 0
                && ready.says(false, "already up to date"@),
            _ => false,
        },
{
}

/// A client of another version learns from the server why it is refused, and sends
/// nothing.
pub proof fn version_refusal_reaches_the_client(
    config: ServerConfig,
    permitted: Seq<Seq<char>>,
    request: ClientHello,
    answer: Admission,
    session: SendSession,
    next: SendState,
    action: SessionAction,
)
    requires
        answers(config, permitted, request, answer),
        !versions_agree(request.version@, VERSION@),
        session.state is AwaitVersion,
        session_step(session, SessionEvent::VersionRead(Ok(answer.replies@[0])), next, action),
    ensures
        ends_with_error(
            next,
            action,
            false,
            "server rejected connection: "@ + version_mismatch(request.version@),
            None,
        ),
{
}

/// Once a session is over nothing more happens.
pub proof fn finished_is_final(session: SendSession, event: SessionEvent)
    requires
        session.state is Finished,
    ensures
        !can_happen(session.state, event),
        forall|next: SendState, action: SessionAction|
            !(#[trigger] session_step(session, event, next, action)),
{
}

// ---------------------------------------------------------------------------
// What comes of it
// ---------------------------------------------------------------------------

/// The snapshot that a remote has now, and that is to be held for it.
#[derive(Debug, PartialEq, Eq)]
pub struct HoldRequest {
    pub dataset: String,
    pub snapshot: String,
    pub remote_name: String,
}

/// What comes of a transfer to one remote.
#[derive(Debug)]
pub struct RemoteOutcome {
    /// What is to be held, before anything is reported.
    pub hold: Option<HoldRequest>,
    /// What is reported.
    pub event: SendEvent,
}

/// Whether `outcome` is what comes of a transfer of `latest` to a remote that ended with
/// `result` after `elapsed` nanoseconds. Only what was sent is held.
pub open spec fn comes_of(
    latest: Seq<char>,
    remote_name: Seq<char>,
    elapsed: u64,
    result: Result<u64, SendError>,
    outcome: RemoteOutcome,
) -> bool {
    let key = row_key(latest, remote_name);
    &&& match result {
        Ok(0) => match outcome.event {
            SendEvent::RemoteUpToDate { remote } => remote@ == key,
            _ => false,
        },
        Ok(sent) => match outcome.event {
            SendEvent::RemoteCompleted { remote, elapsed_nanos, bytes } => remote@ == key
                && elapsed_nanos == elapsed && bytes == sent,
            _ => false,
        },
        Err(e) => if e.cancelled {
            match outcome.event {
                SendEvent::RemoteSkipped { remote } => remote@ == key,
                _ => false,
            }
        } else {
            match outcome.event {
                SendEvent::RemoteFailed { remote, error } => remote@ == key && error@ == e.message@,
                _ => false,
            }
        },
    }
    &&& match outcome.hold {
        Some(hold) => {
            &&& result is Ok && result->Ok_0 > 0
            &&& hold.dataset@ == dataset_part(latest)
            &&& hold.snapshot@ == latest
            &&& hold.remote_name@ == remote_name
        },
        None => result is Err || result->Ok_0 == 0,
    }
}

/// What comes of a transfer of `latest` to a remote that ended with `result` after
/// `elapsed_nanos` nanoseconds.
pub fn send_to_remote(
    latest: &str,
    remote_name: &str,
    elapsed_nanos: u64,
    result: &Result<u64, SendError>,
) -> (r: RemoteOutcome)
    ensures
        comes_of(latest@, remote_name@, elapsed_nanos, *result, r),
{
    let remote = row_key_for(latest, remote_name);
    match result {
        Ok(bytes) => if *bytes == 0 {
            RemoteOutcome { hold: None, event: SendEvent::RemoteUpToDate { remote } }
        } else {
            let hold = HoldRequest {
                dataset: dataset_of(latest),
                snapshot: latest.to_owned(),
                remote_name: remote_name.to_owned(),
            };
            let event = SendEvent::RemoteCompleted { remote, elapsed_nanos, bytes: *bytes };
            RemoteOutcome { hold: Some(hold), event }
        },
        Err(e) => if is_cancelled(e) {
            RemoteOutcome { hold: None, event: SendEvent::RemoteSkipped { remote } }
        } else {
            let event = SendEvent::RemoteFailed { remote, error: e.message.clone() };
            RemoteOutcome { hold: None, event }
        },
    }
}

/// Whether `r` is the result of a transfer that was to go on with an interrupted one.
pub open spec fn resumes(result: Result<u64, SendError>, r: Result<u64, SendError>) -> bool {
    match result {
        Ok(0) => r is Err && r->Err_0.is(false, "newest snapshot already on server"@, None),
        _ => r == result,
    }
}

/// The result of a transfer that was to go on with an interrupted one. Where the remote
/// has the latest snapshot there was none, which is an error.
pub fn send_resume(result: Result<u64, SendError>) -> (r: Result<u64, SendError>)
    ensures
        resumes(result, r),
{
    match result {
        Ok(0) => Err(
            SendError {
                cancelled: false,
                message: "newest snapshot already on server".to_owned(),
                cause: None,
            },
        ),
        other => other,
    }
}

/// Whether a transfer failed. One that the user gave up on did not.
pub open spec fn has_failed(result: Result<u64, SendError>) -> bool {
    match result {
        Ok(_) => false,
        Err(e) => !e.cancelled,
    }
}

/// Whether `r` is what comes of the transfers of one dataset.
pub open spec fn sums_up(results: Seq<Result<u64, SendError>>, r: Result<(), String>) -> bool {
    match r {
        Ok(_) => forall|i: int| 0 <= i < results.len() ==> !has_failed(#[trigger] results[i]),
        Err(e) => e@ == "one or more remotes failed"@ && exists|i: int|
            0 <= i < results.len() && has_failed(#[trigger] results[i]),
    }
}

/// What comes of the transfers of one dataset: an error where any of them failed.
pub fn dispatch_tasks(results: &[Result<u64, SendError>]) -> (r: Result<(), String>)
    ensures
        sums_up(results@, r),
{
    let mut i: usize = 0;
    while i < results.len()
        invariant
            i <= results@.len(),
            forall|j: int| 0 <= j < i ==> !has_failed(#[trigger] results@[j]),
        decreases results@.len() - i,
    {
        let failed = match &results[i] {
            Ok(_) => false,
            Err(e) => !is_cancelled(e),
        };
        if failed {
            assert(has_failed(results@[i as int]));
            return Err("one or more remotes failed".to_owned());
        }
        i = i + 1;
    }
    Ok(())
}

/// Whether `r` is what comes of sending datasets.
pub open spec fn sums_up_all(results: Seq<Result<(), String>>, r: Result<(), String>) -> bool {
    match r {
        Ok(_) => forall|i: int| 0 <= i < results.len() ==> (#[trigger] results[i]) is Ok,
        Err(e) => e@ == "one or more datasets failed to send"@ && exists|i: int|
            0 <= i < results.len() && (#[trigger] results[i]) is Err,
    }
}

/// What comes of sending datasets: an error where any of them failed.
pub fn send(results: &[Result<(), String>]) -> (r: Result<(), String>)
    ensures
        sums_up_all(results@, r),
{
    let mut i: usize = 0;
    while i < results.len()
        invariant
            i <= results@.len(),
            forall|j: int| 0 <= j < i ==> (#[trigger] results@[j]) is Ok,
        decreases results@.len() - i,
    {
        if results[i].is_err() {
            assert(results@[i as int] is Err);
            return Err("one or more datasets failed to send".to_owned());
        }
        i = i + 1;
    }
    Ok(())
}

// ---------------------------------------------------------------------------
// Transfer holds
// ---------------------------------------------------------------------------

/// How a hold moves to another snapshot: first it is placed there. Only where that
/// worked is it released elsewhere, as [`HoldMove::after_hold`] says; a release that
/// fails is passed over.
#[derive(Debug)]
pub struct HoldMove {
    pub hold: ZfsCommand,
    pub releases: Vec<ZfsCommand>,
}

impl HoldMove {
    /// What is to be run once the hold was placed, or not: nothing is released where it
    /// is not there.
    pub open spec fn rest(self, placed: Result<String, ClientError>) -> Seq<ZfsCommand> {
        match placed {
            Ok(_) => self.releases@,
            Err(_) => seq![],
        }
    }

    /// All that is run, in this order.
    pub open spec fn run(self, placed: Result<String, ClientError>) -> Seq<ZfsCommand> {
        seq![self.hold] + self.rest(placed)
    }

    /// What is to be run once the hold was placed, or not.
    pub fn after_hold(self, placed: Result<String, ClientError>) -> (r: Vec<ZfsCommand>)
        ensures
            r@ == self.rest(placed),
    {
        match placed {
            Ok(_) => self.releases,
            Err(_) => Vec::new(),
        }
    }
}

/// The predicate that picks other snapshots than `keep`.
pub open spec fn other_than(keep: Seq<char>) -> spec_fn(Seq<char>) -> bool {
    |name: Seq<char>| name != keep
}

/// Whether a list of commands releases `tag` on `names`, one after the other.
pub open spec fn releases(
    commands: Seq<ZfsCommand>,
    names: Seq<Seq<char>>,
    tag: Seq<char>,
) -> bool {
    &&& commands.len() == names.len()
    &&& forall|i: int|
        0 <= i < commands.len() ==> match #[trigger] commands[i] {
            ZfsCommand::Release { snapshot, tag: t } => snapshot@ == names[i] && t@ == tag,
            _ => false,
        }
}

/// Whether `plan` moves the hold `tag` to `snapshot` from where it is `held`.
pub open spec fn moves_hold(
    plan: HoldMove,
    snapshot: Seq<char>,
    tag: Seq<char>,
    held: Seq<Seq<char>>,
) -> bool {
    &&& match plan.hold {
        ZfsCommand::Hold { snapshot: s, tag: t } => s@ == snapshot && t@ == tag,
        _ => false,
    }
    &&& releases(plan.releases@, held.filter(other_than(snapshot)), tag)
}

/// How the hold `tag` moves to `snapshot`. `held` is where it is, or the error that
/// kept this from being known, in which case nothing is released.
pub fn move_hold(snapshot: &str, tag: &str, held: Result<Vec<String>, ClientError>) -> (r: HoldMove)
    ensures
        moves_hold(
            r,
            snapshot@,
            tag@,
            match held {
                Ok(v) => texts(v@),
                Err(_) => seq![],
            },
        ),
{
    let old: Vec<String> = match held {
        Ok(v) => v,
        Err(_) => Vec::new(),
    };
    let hold = ZfsCommand::Hold { snapshot: snapshot.to_owned(), tag: tag.to_owned() };
    let mut releases: Vec<ZfsCommand> = Vec::new();
    let mut i: usize = 0;
    let ghost names = texts(old@);
    let ghost f = other_than(snapshot@);
    proof {
        reveal(Seq::filter);
        assert(names.take(0) =~= seq![]);
        assert(texts(Seq::<String>::empty()) =~= seq![]);
        if held is Err {
            assert(names =~= seq![]);
        }
    }
    while i < old.len()
        invariant
            i <= old@.len(),
            names == texts(old@),
            f == other_than(snapshot@),
            self::releases(releases@, names.take(i as int).filter(f), tag@),
        decreases old@.len() - i,
    {
        let name = &old[i];
        proof {
            reveal(Seq::filter);
            assert(names.take(i + 1).drop_last() =~= names.take(i as int));
            assert(names.take(i + 1).last() == name@);
        }
        if !str_eq(name.as_str(), snapshot) {
            releases.push(ZfsCommand::Release { snapshot: name.clone(), tag: tag.to_owned() });
        }
        i = i + 1;
    }
    assert(names.take(names.len() as int) =~= names);
    HoldMove { hold, releases }
}

/// The tag of the transfer hold for a remote.
pub open spec fn tag_for(remote_name: Seq<char>) -> Seq<char> {
    "zrb:"@ + remote_name
}

/// The tag of the transfer hold for a remote.
pub fn transfer_tag(remote_name: &str) -> (r: String)
    ensures
        r@ == tag_for(remote_name@),
{
    "zrb:".to_owned().concat(remote_name)
}

/// How the transfer hold for a remote moves to `snapshot`, which the remote has.
/// `held` is what `zfs::client::find_held_snapshots` gave for [`transfer_tag`].
pub fn place_transfer_hold(
    snapshot: &str,
    remote_name: &str,
    held: Result<Vec<String>, ClientError>,
) -> (r: HoldMove)
    ensures
        moves_hold(
            r,
            snapshot@,
            tag_for(remote_name@),
            match held {
                Ok(v) => texts(v@),
                Err(_) => seq![],
            },
        ),
{
    let tag = transfer_tag(remote_name);
    move_hold(snapshot, tag.as_str(), held)
}

/// The holds of a pool, each a snapshot and a tag, once `done` of `commands` were run.
/// `replies` are the pool's answers to them: what fails leaves the holds alone.
pub open spec fn holds_after(
    holds: Set<(Seq<char>, Seq<char>)>,
    commands: Seq<ZfsCommand>,
    replies: Seq<Result<String, ClientError>>,
    done: int,
) -> Set<(Seq<char>, Seq<char>)>
    decreases done,
{
    if done <= 0 {
        holds
    } else {
        let before = holds_after(holds, commands, replies, done - 1);
        match commands[done - 1] {
            ZfsCommand::Hold { snapshot, tag } => if replies[done - 1] is Ok {
                before.insert((snapshot@, tag@))
            } else {
                before
            },
            ZfsCommand::Release { snapshot, tag } => if released(replies[done - 1]) {
                before.remove((snapshot@, tag@))
            } else {
                before
            },
            _ => before,
        }
    }
}

/// Where the hold cannot be placed, nothing is released: every hold is still there.
pub proof fn failed_hold_releases_nothing(
    plan: HoldMove,
    snapshot: Seq<char>,
    tag: Seq<char>,
    held: Seq<Seq<char>>,
    holds: Set<(Seq<char>, Seq<char>)>,
    replies: Seq<Result<String, ClientError>>,
)
    requires
        moves_hold(plan, snapshot, tag, held),
        replies.len() == plan.run(replies[0]).len(),
        replies[0] is Err,
    ensures
        replies.len() == 1,
        holds_after(holds, plan.run(replies[0]), replies, replies.len() as int) == holds,
{
    let commands = plan.run(replies[0]);
    assert(commands[0] == plan.hold);
    assert(holds_after(holds, commands, replies, 0) == holds);
    assert(holds_after(holds, commands, replies, 1) == holds);
}

/// Once the hold is placed, there is no moment without it, however far the move gets
/// and whatever fails: the snapshot it moves to is held.
pub proof fn moving_leaves_no_gap(
    plan: HoldMove,
    snapshot: Seq<char>,
    tag: Seq<char>,
    held: Seq<Seq<char>>,
    holds: Set<(Seq<char>, Seq<char>)>,
    replies: Seq<Result<String, ClientError>>,
    done: int,
)
    requires
        moves_hold(plan, snapshot, tag, held),
        replies.len() == plan.run(replies[0]).len(),
        replies[0] is Ok,
        1 <= done <= replies.len(),
    ensures
        holds_after(holds, plan.run(replies[0]), replies, done).contains((snapshot, tag)),
    decreases done,
{
    let commands = plan.run(replies[0]);
    if done == 1 {
        assert(commands[0] == plan.hold);
    } else {
        moving_leaves_no_gap(plan, snapshot, tag, held, holds, replies, done - 1);
        let others = held.filter(other_than(snapshot));
        held.lemma_filter_pred(other_than(snapshot), done - 2);
        assert(other_than(snapshot)(others[done - 2]));
        assert(commands[done - 1] == plan.releases@[done - 2]);
        assert(plan.releases@[done - 2] is Release);
    }
}

/// However far a move gets and whatever fails, it leaves the holds of all other tags
/// alone.
pub proof fn moving_keeps_other_tags(
    plan: HoldMove,
    snapshot: Seq<char>,
    tag: Seq<char>,
    held: Seq<Seq<char>>,
    holds: Set<(Seq<char>, Seq<char>)>,
    replies: Seq<Result<String, ClientError>>,
    done: int,
    name: Seq<char>,
    other: Seq<char>,
)
    requires
        moves_hold(plan, snapshot, tag, held),
        replies.len() == plan.run(replies[0]).len(),
        0 <= done <= replies.len(),
        other != tag,
    ensures
        holds_after(holds, plan.run(replies[0]), replies, done).contains((name, other))
            <==> holds.contains((name, other)),
    decreases done,
{
    let commands = plan.run(replies[0]);
    if done > 0 {
        moving_keeps_other_tags(plan, snapshot, tag, held, holds, replies, done - 1, name, other);
        if done == 1 {
            assert(commands[0] == plan.hold);
        } else {
            assert(commands[done - 1] == plan.releases@[done - 2]);
            assert(plan.releases@[done - 2] is Release);
        }
    }
}

/// Once a move is complete and all of it worked, the snapshot is the only one that is
/// held under the tag, where `held` are all that were.
pub proof fn moving_ends_with_one_hold(
    plan: HoldMove,
    snapshot: Seq<char>,
    tag: Seq<char>,
    held: Seq<Seq<char>>,
    holds: Set<(Seq<char>, Seq<char>)>,
    replies: Seq<Result<String, ClientError>>,
    name: Seq<char>,
)
    requires
        moves_hold(plan, snapshot, tag, held),
        replies.len() == plan.run(replies[0]).len(),
        replies[0] is Ok,
        forall|i: int| 1 <= i < replies.len() ==> released(#[trigger] replies[i]),
        forall|n: Seq<char>| #[trigger] holds.contains((n, tag)) ==> held.contains(n),
    ensures
        holds_after(holds, plan.run(replies[0]), replies, replies.len() as int).contains(
            (name, tag),
        ) <==> name == snapshot,
{
    let n = replies.len() as int;
    let others = held.filter(other_than(snapshot));
    moving_leaves_no_gap(plan, snapshot, tag, held, holds, replies, n);
    if name != snapshot {
        lemma_released(plan, snapshot, tag, held, holds, replies, n, name);
        assert(others.take(n - 1) =~= others);
        if holds.contains((name, tag)) {
            let k = choose|k: int| 0 <= k < held.len() && held[k] == name;
            held.lemma_filter_contains(other_than(snapshot), k);
        }
    }
}

proof fn lemma_released(
    plan: HoldMove,
    snapshot: Seq<char>,
    tag: Seq<char>,
    held: Seq<Seq<char>>,
    holds: Set<(Seq<char>, Seq<char>)>,
    replies: Seq<Result<String, ClientError>>,
    done: int,
    name: Seq<char>,
)
    requires
        moves_hold(plan, snapshot, tag, held),
        replies.len() == plan.run(replies[0]).len(),
        replies[0] is Ok,
        forall|i: int| 1 <= i < replies.len() ==> released(#[trigger] replies[i]),
        name != snapshot,
        1 <= done <= replies.len(),
    ensures
        holds_after(holds, plan.run(replies[0]), replies, done).contains((name, tag)) ==> {
            &&& holds.contains((name, tag))
            &&& !held.filter(other_than(snapshot)).take(done - 1).contains(name)
        },
    decreases done,
{
    let commands = plan.run(replies[0]);
    let others = held.filter(other_than(snapshot));
    if done == 1 {
        assert(commands[0] == plan.hold);
        assert(holds_after(holds, commands, replies, 0) == holds);
        assert(others.take(0) =~= seq![]);
    } else {
        lemma_released(plan, snapshot, tag, held, holds, replies, done - 1, name);
        assert(commands[done - 1] == plan.releases@[done - 2]);
        assert(plan.releases@[done - 2] is Release);
        let before = others.take(done - 2);
        let after = others.take(done - 1);
        assert(after =~= before.push(others[done - 2]));
        assert(released(replies[done - 1]));
        if after.contains(name) && !before.contains(name) {
            let k = choose|k: int| 0 <= k < after.len() && after[k] == name;
            if k < done - 2 {
                assert(before[k] == name);
            }
        }
    }
}

/// Every task is a target that the filter lets through, with the configuration of its
/// remote.
pub proof fn tasks_are_chosen_targets(
    tasks: Seq<Task<'_>>,
    targets: Seq<(String, String)>,
    filter: Option<&[&str]>,
    remotes: Seq<(String, RemoteConfig)>,
    i: int,
)
    requires
        are_tasks(tasks, targets, filter, remotes),
        0 <= i < tasks.len(),
    ensures
        is_chosen(filter, tasks[i].0@),
        lookup(remotes, tasks[i].0@) == Some(*tasks[i].1),
        exists|k: int|
            0 <= k < targets.len() && (#[trigger] targets[k]).0@ == tasks[i].0@ && targets[k].1@
                == tasks[i].2@,
    decreases targets.len(),
{
    let last = targets.last();
    let rest = targets.drop_last();
    if is_chosen(filter, last.0@) {
        if i == tasks.len() - 1 {
            assert(targets[targets.len() - 1].0@ == tasks[i].0@);
        } else {
            tasks_are_chosen_targets(tasks.drop_last(), rest, filter, remotes, i);
            let k = choose|k: int|
                0 <= k < rest.len() && (#[trigger] rest[k]).0@ == tasks.drop_last()[i].0@
                    && rest[k].1@ == tasks.drop_last()[i].2@;
            assert(targets[k] == rest[k]);
        }
    } else {
        tasks_are_chosen_targets(tasks, rest, filter, remotes, i);
        let k = choose|k: int|
            0 <= k < rest.len() && (#[trigger] rest[k]).0@ == tasks[i].0@ && rest[k].1@
                == tasks[i].2@;
        assert(targets[k] == rest[k]);
    }
}

} // verus!
