//! The `zfs` command: its argument lists, and the meaning of what it prints.

use crate::snapshot::naming::{filter_zrb, has_single_at, managed, stamp, PREFIX};
use crate::text::{
    contains_text, copy_list, cut, distinct_keys, first_two_fields, has_prefix, lemma_cut,
    lemma_lookup_entry, lemma_texts_push, lines, lines_of, lookup, occurs, push_text, split_once,
    starts_with, str_eq, texts, trim, trimmed, two_fields,
};
use crate::time::{parse_rfc3339, rfc3339_instant, rfc3339_text, to_rfc3339, Timestamp};
use vstd::prelude::*;
use vstd::string::*;
use vstd::utf8::{decode_utf8, valid_utf8};

verus! {

// ---------------------------------------------------------------------------
// Running a command
// ---------------------------------------------------------------------------

/// Why a `zfs` command gave no answer.
#[derive(Debug, Clone, PartialEq, Eq)]
pub enum ClientError {
    /// The process could not be started, as the text says.
    Spawn(String),
    /// The process failed, and printed this.
    CommandFailed { stderr: String },
    /// What it printed was not the JSON it should be, as the text says.
    JsonParse(String),
}

impl ClientError {
    /// The text of the error.
    pub open spec fn text(self) -> Seq<char> {
        match self {
            ClientError::Spawn(e) => "failed to spawn zfs process: "@ + e@,
            ClientError::CommandFailed { stderr } => "zfs command failed: "@ + stderr@,
            ClientError::JsonParse(e) => "zfs output could not be parsed as JSON: "@ + e@,
        }
    }

    /// The text of the error.
    pub fn message(&self) -> (r: String)
        ensures
            r@ == self.text(),
    {
        match self {
            ClientError::Spawn(e) => "failed to spawn zfs process: ".to_owned().concat(e.as_str()),
            ClientError::CommandFailed { stderr } => "zfs command failed: ".to_owned().concat(
                stderr.as_str(),
            ),
            ClientError::JsonParse(e) => "zfs output could not be parsed as JSON: ".to_owned().concat(
                e.as_str(),
            ),
        }
    }
}

/// How a process ended and what it printed.
#[derive(Debug, Clone, PartialEq, Eq)]
pub struct CommandOutput {
    pub success: bool,
    pub stdout: Vec<u8>,
    pub stderr: Vec<u8>,
}

/// What `String::from_utf8_lossy` makes of bytes.
pub uninterp spec fn lossy_text(bytes: Seq<u8>) -> Seq<char>;

/// `String::from_utf8_lossy`: the text is a function of the bytes, and for bytes
/// that are UTF-8 it is the text they encode.
#[verifier::external_body]
pub(crate) fn utf8_lossy(bytes: &[u8]) -> (r: String)
    ensures
        r@ == lossy_text(bytes@),
        valid_utf8(bytes@) ==> r@ == decode_utf8(bytes@),
{
    String::from_utf8_lossy(bytes).into_owned()
}

/// Whether bytes that are UTF-8 give the text they encode.
pub open spec fn lossless(bytes: Seq<u8>) -> bool {
    valid_utf8(bytes) ==> lossy_text(bytes) == decode_utf8(bytes)
}

/// The answer of a command: what it printed, or how it failed. `spawned` holds
/// the error that kept the process from starting, if one did.
pub fn run(spawned: Result<CommandOutput, String>) -> (r: Result<String, ClientError>)
    ensures
        match spawned {
            Err(e) => r == Err::<String, ClientError>(ClientError::Spawn(e)),
            Ok(output) => if output.success {
                r is Ok && r->Ok_0@ == lossy_text(output.stdout@) && lossless(output.stdout@)
            } else {
                match r {
                    Err(ClientError::CommandFailed { stderr }) => stderr@ == lossy_text(
                        output.stderr@,
                    ) && lossless(output.stderr@),
                    _ => false,
                }
            },
        },
{
    match spawned {
        Err(e) => Err(ClientError::Spawn(e)),
        Ok(output) => if output.success {
            Ok(utf8_lossy(output.stdout.as_slice()))
        } else {
            Err(ClientError::CommandFailed { stderr: utf8_lossy(output.stderr.as_slice()) })
        },
    }
}

/// The answer of a command of which only success counts.
pub fn completed(reply: Result<String, ClientError>) -> (r: Result<(), ClientError>)
    ensures
        match reply {
            Ok(_) => r is Ok,
            Err(e) => r == Err::<(), ClientError>(e),
        },
{
    match reply {
        Ok(_) => Ok(()),
        Err(e) => Err(e),
    }
}

/// Whether an error says that the dataset is not there.
pub open spec fn says_not_found(err: ClientError) -> bool {
    match err {
        ClientError::CommandFailed { stderr } => occurs(stderr@, "dataset does not exist"@),
        _ => false,
    }
}

/// Whether an error says that the dataset is not there.
pub fn is_dataset_not_found(err: &ClientError) -> (r: bool)
    ensures
        r == says_not_found(*err),
{
    match err {
        ClientError::CommandFailed { stderr } => contains_text(
            stderr.as_str(),
            "dataset does not exist",
        ),
        _ => false,
    }
}

// ---------------------------------------------------------------------------
// Commands
// ---------------------------------------------------------------------------

/// A command for `zfs`.
#[derive(Debug, Clone, PartialEq, Eq)]
pub enum ZfsCommand {
    /// Take the snapshot `<dataset>@<name>`.
    CreateSnapshot { dataset: String, name: String },
    /// List the snapshots of a dataset.
    ListSnapshots { dataset: String },
    /// List the snapshots of every dataset.
    DiscoverDatasets,
    /// Destroy a snapshot.
    DestroySnapshot { snapshot: String },
    /// Write the stream of a snapshot, from `base` on where there is one.
    Send { base: Option<String>, snapshot: String, opts: Vec<String> },
    /// Write the rest of an interrupted stream.
    SendResume { token: String, opts: Vec<String> },
    /// Say how long the stream of `Send` would be.
    EstimateSend { base: Option<String>, snapshot: String, opts: Vec<String> },
    /// Say how long the stream of `SendResume` would be.
    EstimateResume { token: String, opts: Vec<String> },
    /// Take in a stream, keeping what arrived of an interrupted one.
    Receive { dataset: String, opts: Vec<String> },
    /// Give up what arrived of an interrupted stream.
    AbortResume { dataset: String },
    /// Say under which token an interrupted stream can go on.
    GetResumeToken { dataset: String },
    /// Say since when an interrupted stream waits.
    GetResumeSince { dataset: String },
    /// Note since when an interrupted stream waits.
    SetResumeSince { dataset: String, since: Timestamp },
    /// Drop the note since when an interrupted stream waits.
    ClearResumeSince { dataset: String },
    /// Place a hold.
    Hold { snapshot: String, tag: String },
    /// Release a hold.
    Release { snapshot: String, tag: String },
    /// List the holds on snapshots.
    Holds { snapshots: Vec<String> },
}

/// `name=value` for the note since when an interrupted stream waits.
pub open spec fn since_property(since: Timestamp) -> Seq<char> {
    "zrb:resume-since="@ + rfc3339_text(since.secs, since.nanos)
}

/// The arguments that name the base of an incremental stream.
pub open spec fn base_args(base: Option<String>) -> Seq<Seq<char>> {
    match base {
        Some(b) => seq!["-i"@, b@],
        None => seq![],
    }
}

impl ZfsCommand {
    /// Whether the command changes anything on the pool.
    pub open spec fn mutates(self) -> bool {
        match self {
            ZfsCommand::ListSnapshots { .. } => false,
            ZfsCommand::DiscoverDatasets => false,
            ZfsCommand::Send { .. } => false,
            ZfsCommand::SendResume { .. } => false,
            ZfsCommand::EstimateSend { .. } => false,
            ZfsCommand::EstimateResume { .. } => false,
            ZfsCommand::GetResumeToken { .. } => false,
            ZfsCommand::GetResumeSince { .. } => false,
            ZfsCommand::Holds { .. } => false,
            _ => true,
        }
    }

    /// The arguments of the command, behind `zfs`.
    pub open spec fn arg_texts(self) -> Seq<Seq<char>> {
        match self {
            ZfsCommand::CreateSnapshot { dataset, name } => seq![
                "snapshot"@,
                dataset@ + "@"@ + name@,
            ],
            ZfsCommand::ListSnapshots { dataset } => seq![
                "list"@,
                "-t"@,
                "snapshot"@,
                "-H"@,
                "-o"@,
                "name"@,
                dataset@,
            ],
            ZfsCommand::DiscoverDatasets => seq!["list"@, "-t"@, "snapshot"@, "-H"@, "-o"@, "name"@],
            ZfsCommand::DestroySnapshot { snapshot } => seq!["destroy"@, snapshot@],
            ZfsCommand::Send { base, snapshot, opts } => seq!["send"@] + base_args(base) + seq![
                snapshot@,
            ] + texts(opts@),
            ZfsCommand::SendResume { token, opts } => seq!["send"@, "-t"@, token@] + texts(opts@),
            ZfsCommand::EstimateSend { base, snapshot, opts } => seq!["send"@, "-n"@, "-v"@]
                + base_args(base) + seq![snapshot@] + texts(opts@),
            ZfsCommand::EstimateResume { token, opts } => seq![
                "send"@,
                "-n"@,
                "-v"@,
                "-t"@,
                token@,
            ] + texts(opts@),
            ZfsCommand::Receive { dataset, opts } => seq!["receive"@, "-s"@, dataset@] + texts(
                opts@,
            ),
            ZfsCommand::AbortResume { dataset } => seq!["receive"@, "-A"@, dataset@],
            ZfsCommand::GetResumeToken { dataset } => seq![
                "get"@,
                "-H"@,
                "-o"@,
                "value"@,
                "receive_resume_token"@,
                dataset@,
            ],
            ZfsCommand::GetResumeSince { dataset } => seq![
                "get"@,
                "-H"@,
                "-o"@,
                "value"@,
                "zrb:resume-since"@,
                dataset@,
            ],
            ZfsCommand::SetResumeSince { dataset, since } => seq![
                "set"@,
                since_property(since),
                dataset@,
            ],
            ZfsCommand::ClearResumeSince { dataset } => seq![
                "inherit"@,
                "zrb:resume-since"@,
                dataset@,
            ],
            ZfsCommand::Hold { snapshot, tag } => seq!["hold"@, tag@, snapshot@],
            ZfsCommand::Release { snapshot, tag } => seq!["release"@, tag@, snapshot@],
            ZfsCommand::Holds { snapshots } => seq!["holds"@, "-H"@] + texts(snapshots@),
        }
    }

    /// Whether the command can be written out: a time it carries is an instant.
    pub open spec fn valid(self) -> bool {
        match self {
            ZfsCommand::SetResumeSince { since, .. } => since.valid(),
            _ => true,
        }
    }

    /// The arguments of the command, behind `zfs`.
    pub fn args(&self) -> (r: Vec<String>)
        requires
            self.valid(),
        ensures
            texts(r@) == self.arg_texts(),
    {
        let mut out: Vec<String> = Vec::new();
        match self {
            ZfsCommand::CreateSnapshot { dataset, name } => {
                push_text(&mut out, "snapshot");
                let full = dataset.clone().concat("@").concat(name.as_str());
                push_text(&mut out, full.as_str());
            },
            ZfsCommand::ListSnapshots { dataset } => {
                put_list_snapshots(&mut out);
                push_text(&mut out, dataset.as_str());
            },
            ZfsCommand::DiscoverDatasets => {
                put_list_snapshots(&mut out);
            },
            ZfsCommand::DestroySnapshot { snapshot } => {
                push_text(&mut out, "destroy");
                push_text(&mut out, snapshot.as_str());
            },
            ZfsCommand::Send { base, snapshot, opts } => {
                push_text(&mut out, "send");
                put_base(&mut out, base);
                push_text(&mut out, snapshot.as_str());
                put_all(&mut out, opts);
            },
            ZfsCommand::SendResume { token, opts } => {
                push_text(&mut out, "send");
                push_text(&mut out, "-t");
                push_text(&mut out, token.as_str());
                put_all(&mut out, opts);
            },
            ZfsCommand::EstimateSend { base, snapshot, opts } => {
                push_text(&mut out, "send");
                push_text(&mut out, "-n");
                push_text(&mut out, "-v");
                put_base(&mut out, base);
                push_text(&mut out, snapshot.as_str());
                put_all(&mut out, opts);
            },
            ZfsCommand::EstimateResume { token, opts } => {
                push_text(&mut out, "send");
                push_text(&mut out, "-n");
                push_text(&mut out, "-v");
                push_text(&mut out, "-t");
                push_text(&mut out, token.as_str());
                put_all(&mut out, opts);
            },
            ZfsCommand::Receive { dataset, opts } => {
                push_text(&mut out, "receive");
                push_text(&mut out, "-s");
                push_text(&mut out, dataset.as_str());
                put_all(&mut out, opts);
            },
            ZfsCommand::AbortResume { dataset } => {
                push_text(&mut out, "receive");
                push_text(&mut out, "-A");
                push_text(&mut out, dataset.as_str());
            },
            ZfsCommand::GetResumeToken { dataset } => {
                put_get_value(&mut out);
                push_text(&mut out, "receive_resume_token");
                push_text(&mut out, dataset.as_str());
            },
            ZfsCommand::GetResumeSince { dataset } => {
                put_get_value(&mut out);
                push_text(&mut out, "zrb:resume-since");
                push_text(&mut out, dataset.as_str());
            },
            ZfsCommand::SetResumeSince { dataset, since } => {
                push_text(&mut out, "set");
                let value = resume_since_value(*since);
                let property = "zrb:resume-since=".to_owned().concat(value.as_str());
                push_text(&mut out, property.as_str());
                push_text(&mut out, dataset.as_str());
            },
            ZfsCommand::ClearResumeSince { dataset } => {
                push_text(&mut out, "inherit");
                push_text(&mut out, "zrb:resume-since");
                push_text(&mut out, dataset.as_str());
            },
            ZfsCommand::Hold { snapshot, tag } => {
                push_text(&mut out, "hold");
                push_text(&mut out, tag.as_str());
                push_text(&mut out, snapshot.as_str());
            },
            ZfsCommand::Release { snapshot, tag } => {
                push_text(&mut out, "release");
                push_text(&mut out, tag.as_str());
                push_text(&mut out, snapshot.as_str());
            },
            ZfsCommand::Holds { snapshots } => {
                push_text(&mut out, "holds");
                push_text(&mut out, "-H");
                put_all(&mut out, snapshots);
            },
        }
        assert(texts(out@) =~= self.arg_texts());
        out
    }
}

fn put_all(out: &mut Vec<String>, args: &Vec<String>)
    ensures
        texts(final(out)@) == texts(old(out)@) + texts(args@),
{
    let mut rest = copy_list(args.as_slice());
    out.append(&mut rest);
    assert(texts(out@) =~= texts(old(out)@) + texts(args@));
}

fn put_base(out: &mut Vec<String>, base: &Option<String>)
    ensures
        texts(final(out)@) == texts(old(out)@) + base_args(*base),
{
    match base {
        Some(b) => {
            push_text(out, "-i");
            push_text(out, b.as_str());
        },
        None => {},
    }
    assert(texts(out@) =~= texts(old(out)@) + base_args(*base));
}

fn put_list_snapshots(out: &mut Vec<String>)
    ensures
        texts(final(out)@) == texts(old(out)@) + seq![
            "list"@,
            "-t"@,
            "snapshot"@,
            "-H"@,
            "-o"@,
            "name"@,
        ],
{
    push_text(out, "list");
    push_text(out, "-t");
    push_text(out, "snapshot");
    push_text(out, "-H");
    push_text(out, "-o");
    push_text(out, "name");
    assert(texts(out@) =~= texts(old(out)@) + seq![
        "list"@,
        "-t"@,
        "snapshot"@,
        "-H"@,
        "-o"@,
        "name"@,
    ]);
}

fn put_get_value(out: &mut Vec<String>)
    ensures
        texts(final(out)@) == texts(old(out)@) + seq!["get"@, "-H"@, "-o"@, "value"@],
{
    push_text(out, "get");
    push_text(out, "-H");
    push_text(out, "-o");
    push_text(out, "value");
    assert(texts(out@) =~= texts(old(out)@) + seq!["get"@, "-H"@, "-o"@, "value"@]);
}

// ---------------------------------------------------------------------------
// Snapshots
// ---------------------------------------------------------------------------

/// Reads a line as an entry of a listing: what is on it, if anything is.
pub open spec fn listed_name() -> spec_fn(Seq<char>) -> Option<Seq<char>> {
    |line: Seq<char>|
        if trimmed(line).len() == 0 {
            None
        } else {
            Some(trimmed(line))
        }
}

/// The names in a listing, one to a line.
pub fn parse_list_output(output: &str) -> (r: Vec<String>)
    ensures
        texts(r@) == lines_of(output@).filter_map(listed_name()),
{
    let all = lines(output);
    let mut out: Vec<String> = Vec::new();
    let mut i: usize = 0;
    let ghost f = listed_name();
    assert(texts(out@) =~= texts(all@).take(0).filter_map(f));
    while i < all.len()
        invariant
            i <= all@.len(),
            f == listed_name(),
            texts(out@) == texts(all@).take(i as int).filter_map(f),
        decreases all@.len() - i,
    {
        let name = trim(all[i].as_str());
        proof {
            lemma_take_filter_map(texts(all@), i as int, f);
        }
        if !name.as_str().is_empty() {
            proof {
                lemma_texts_push(out@, name);
                assert(texts(out@).push(name@) =~= texts(out@) + seq![name@]);
            }
            out.push(name);
        }
        i = i + 1;
    }
    assert(texts(all@).take(all@.len() as int) =~= texts(all@));
    out
}

/// One more entry adds what it is read as.
pub proof fn lemma_take_filter_map(
    s: Seq<Seq<char>>,
    i: int,
    f: spec_fn(Seq<char>) -> Option<Seq<char>>,
)
    requires
        0 <= i < s.len(),
    ensures
        s.take(i + 1).filter_map(f) == (match f(s[i]) {
            Some(x) => s.take(i).filter_map(f) + seq![x],
            None => s.take(i).filter_map(f),
        }),
{
    assert(s.take(i + 1).drop_last() =~= s.take(i));
    reveal(Seq::filter_map);
}

/// The answer to `ListSnapshots`: a dataset that is not there has no snapshots.
pub fn list_snapshots(reply: Result<String, ClientError>) -> (r: Result<Vec<String>, ClientError>)
    ensures
        match reply {
            Ok(stdout) => r is Ok && texts(r->Ok_0@) == lines_of(stdout@).filter_map(
                listed_name(),
            ),
            Err(e) => if says_not_found(e) {
                r is Ok && r->Ok_0@.len() == 0
            } else {
                r == Err::<Vec<String>, ClientError>(e)
            },
        },
{
    match reply {
        Ok(stdout) => Ok(parse_list_output(stdout.as_str())),
        Err(e) => if is_dataset_not_found(&e) {
            Ok(Vec::new())
        } else {
            Err(e)
        },
    }
}

/// Whether `snapshot` may be destroyed: it is `<dataset>@zrb-<suffix>`, with one
/// `@`.
pub open spec fn may_destroy(snapshot: Seq<char>) -> bool {
    match cut(snapshot, '@') {
        Some((_, name)) => has_prefix(name, PREFIX@) && !name.contains('@'),
        None => false,
    }
}

/// Whether `snapshot` may be destroyed.
pub fn is_destroyable(snapshot: &str) -> (r: bool)
    ensures
        r == may_destroy(snapshot@),
{
    match split_once(snapshot, '@') {
        Some((_, name)) => {
            proof {
                lemma_cut(name@, '@');
                if cut(name@, '@') is Some {
                    let (a, b) = cut(name@, '@')->0;
                    assert(name@[a.len() as int] == '@');
                }
            }
            starts_with(name.as_str(), PREFIX) && split_once(name.as_str(), '@').is_none()
        },
        None => false,
    }
}

/// The command that destroys `snapshot`. Nothing but a managed snapshot is ever
/// destroyed.
pub fn destroy_snapshot(snapshot: String) -> (r: ZfsCommand)
    requires
        may_destroy(snapshot@),
    ensures
        r == (ZfsCommand::DestroySnapshot { snapshot }),
{
    ZfsCommand::DestroySnapshot { snapshot }
}

/// Managed snapshots may be destroyed.
pub proof fn managed_may_be_destroyed(name: Seq<char>)
    requires
        stamp(name) is Some,
        has_single_at(name),
    ensures
        may_destroy(name),
{
}

// ---------------------------------------------------------------------------
// Datasets
// ---------------------------------------------------------------------------

/// Reads a line as a snapshot's name: the dataset, where it has the prefix of
/// managed ones.
pub open spec fn managed_dataset() -> spec_fn(Seq<char>) -> Option<Seq<char>> {
    |line: Seq<char>|
        match cut(trimmed(line), '@') {
            Some((dataset, snapshot)) => if has_prefix(snapshot, PREFIX@) {
                Some(dataset)
            } else {
                None
            },
            None => None,
        }
}

/// A list in which each run of equal entries is one.
pub open spec fn runs_merged(s: Seq<Seq<char>>) -> Seq<Seq<char>>
    decreases s.len(),
{
    if s.len() <= 1 {
        s
    } else if s[s.len() - 2] == s.last() {
        runs_merged(s.drop_last())
    } else {
        runs_merged(s.drop_last()).push(s.last())
    }
}

proof fn lemma_runs_merged_last(s: Seq<Seq<char>>)
    ensures
        runs_merged(s).len() == 0 <==> s.len() == 0,
        s.len() > 0 ==> runs_merged(s).last() == s.last(),
    decreases s.len(),
{
    if s.len() > 1 {
        lemma_runs_merged_last(s.drop_last());
    }
}

/// The datasets with managed snapshots in a listing of all snapshots.
pub open spec fn discovered_in(output: Seq<char>) -> Seq<Seq<char>> {
    runs_merged(lines_of(output).filter_map(managed_dataset()))
}

/// The datasets with managed snapshots in a listing of all snapshots. Those whose
/// snapshots stand together are named once.
pub fn parse_discovered_datasets(output: &str) -> (r: Vec<String>)
    ensures
        texts(r@) == discovered_in(output@),
{
    let all = lines(output);
    let mut out: Vec<String> = Vec::new();
    let mut i: usize = 0;
    let ghost f = managed_dataset();
    assert(texts(all@).take(0).filter_map(f) =~= seq![]);
    assert(texts(out@) =~= runs_merged(texts(all@).take(0).filter_map(f)));
    while i < all.len()
        invariant
            i <= all@.len(),
            f == managed_dataset(),
            texts(out@) == runs_merged(texts(all@).take(i as int).filter_map(f)),
        decreases all@.len() - i,
    {
        let line = trim(all[i].as_str());
        let ghost found = texts(all@).take(i as int).filter_map(f);
        proof {
            lemma_take_filter_map(texts(all@), i as int, f);
            lemma_runs_merged_last(found);
        }
        match split_once(line.as_str(), '@') {
            Some((dataset, snapshot)) => {
                if starts_with(snapshot.as_str(), PREFIX) {
                    let n: usize = out.len();
                    let ghost more = found + seq![dataset@];
                    proof {
                        assert(more.drop_last() =~= found);
                        assert(more.last() == dataset@);
                        if found.len() > 0 {
                            assert(more[more.len() - 2] == found.last());
                            assert(texts(out@).last() == out@[n - 1]@);
                        } else {
                            assert(more =~= seq![dataset@]);
                            assert(texts(out@).push(dataset@) =~= seq![dataset@]);
                        }
                    }
                    if n == 0 || !str_eq(out[n - 1].as_str(), dataset.as_str()) {
                        proof {
                            lemma_texts_push(out@, dataset);
                        }
                        out.push(dataset);
                    }
                }
            },
            None => {},
        }
        i = i + 1;
    }
    assert(texts(all@).take(all@.len() as int) =~= texts(all@));
    out
}

/// The answer to `DiscoverDatasets`: the datasets with managed snapshots.
pub fn discover_datasets(reply: Result<String, ClientError>) -> (r: Result<
    Vec<String>,
    ClientError,
>)
    ensures
        match reply {
            Ok(stdout) => r is Ok && texts(r->Ok_0@) == discovered_in(stdout@),
            Err(e) => r == Err::<Vec<String>, ClientError>(e),
        },
{
    match reply {
        Ok(stdout) => Ok(parse_discovered_datasets(stdout.as_str())),
        Err(e) => Err(e),
    }
}

// ---------------------------------------------------------------------------
// Interrupted transfers
// ---------------------------------------------------------------------------

/// What a token's value stands for: `-` and `none` for no token.
pub open spec fn token_of(value: Seq<char>) -> Option<Seq<char>> {
    if value == "-"@ || value == "none"@ {
        None
    } else {
        Some(value)
    }
}

/// What a token's value stands for.
pub fn parse_resume_token(value: &str) -> (r: Option<String>)
    ensures
        match r {
            Some(token) => token_of(value@) == Some(token@),
            None => token_of(value@) is None,
        },
{
    if str_eq(value, "-") || str_eq(value, "none") {
        None
    } else {
        Some(value.to_owned())
    }
}

/// The answer to `GetResumeToken`: a dataset that is not there has no token.
pub fn get_resume_token(reply: Result<String, ClientError>) -> (r: Result<
    Option<String>,
    ClientError,
>)
    ensures
        match reply {
            Ok(output) => match r {
                Ok(Some(token)) => token_of(trimmed(output@)) == Some(token@),
                Ok(None) => token_of(trimmed(output@)) is None,
                Err(_) => false,
            },
            Err(e) => if says_not_found(e) {
                r == Ok::<Option<String>, ClientError>(None)
            } else {
                r == Err::<Option<String>, ClientError>(e)
            },
        },
{
    match reply {
        Ok(output) => {
            let value = trim(output.as_str());
            Ok(parse_resume_token(value.as_str()))
        },
        Err(e) => if is_dataset_not_found(&e) {
            Ok(None)
        } else {
            Err(e)
        },
    }
}

/// The instant a note stands for: none where it is `-` or not an RFC 3339 text.
pub open spec fn since_of(value: Seq<char>) -> Option<Timestamp> {
    if value == "-"@ {
        None
    } else {
        match rfc3339_instant(value) {
            Some((secs, nanos)) => Some(Timestamp { secs, nanos }),
            None => None,
        }
    }
}

/// The instant a note stands for.
pub fn parse_resume_since(value: &str) -> (r: Option<Timestamp>)
    ensures
        r == since_of(value@),
        r is Some ==> r->0.valid(),
{
    if str_eq(value, "-") {
        None
    } else {
        parse_rfc3339(value)
    }
}

/// The note for an instant. In a four-digit year it stands for that instant.
pub fn resume_since_value(since: Timestamp) -> (r: String)
    requires
        since.valid(),
    ensures
        r@ == rfc3339_text(since.secs, since.nanos),
        since.four_digit_year() ==> since_of(r@) == Some(since),
{
    let r = to_rfc3339(since);
    proof {
        reveal_strlit("-");
    }
    r
}

/// The answer to `GetResumeSince`: a dataset that is not there has no note.
pub fn get_resume_since(reply: Result<String, ClientError>) -> (r: Result<
    Option<Timestamp>,
    ClientError,
>)
    ensures
        match reply {
            Ok(output) => r == Ok::<Option<Timestamp>, ClientError>(since_of(trimmed(output@))),
            Err(e) => if says_not_found(e) {
                r == Ok::<Option<Timestamp>, ClientError>(None)
            } else {
                r == Err::<Option<Timestamp>, ClientError>(e)
            },
        },
        r is Ok && r->Ok_0 is Some ==> r->Ok_0->0.valid(),
{
    match reply {
        Ok(output) => {
            let value = trim(output.as_str());
            Ok(parse_resume_since(value.as_str()))
        },
        Err(e) => if is_dataset_not_found(&e) {
            Ok(None)
        } else {
            Err(e)
        },
    }
}

// ---------------------------------------------------------------------------
// Holds
// ---------------------------------------------------------------------------

/// Whether an answer to `Release` says that the hold is gone: it was released, or it
/// was not there.
pub open spec fn released(reply: Result<String, ClientError>) -> bool {
    match reply {
        Ok(_) => true,
        Err(ClientError::CommandFailed { stderr }) => occurs(stderr@, "no such tag"@),
        Err(_) => false,
    }
}

/// The answer to `Release`: a hold that is not there counts as released.
pub fn release_hold(reply: Result<String, ClientError>) -> (r: Result<(), ClientError>)
    ensures
        r == if released(reply) {
            Ok::<(), ClientError>(())
        } else {
            Err(reply->Err_0)
        },
{
    match reply {
        Ok(_) => Ok(()),
        Err(e) => {
            let absent = match &e {
                ClientError::CommandFailed { stderr } => contains_text(
                    stderr.as_str(),
                    "no such tag",
                ),
                _ => false,
            };
            if absent {
                Ok(())
            } else {
                Err(e)
            }
        },
    }
}

/// Whether a pool with `holds`, each a snapshot and a tag, may give `reply` when `tag`
/// is to be released on a snapshot that it has, and has the holds `after` then. A hold
/// goes, or stays where the command fails. Where there is none, the pool says that
/// there is no such tag.
pub open spec fn pool_releases(
    holds: Set<(Seq<char>, Seq<char>)>,
    snapshot: Seq<char>,
    tag: Seq<char>,
    reply: Result<String, ClientError>,
    after: Set<(Seq<char>, Seq<char>)>,
) -> bool {
    if !holds.contains((snapshot, tag)) {
        &&& after == holds
        &&& match reply {
            Err(ClientError::CommandFailed { stderr }) => occurs(stderr@, "no such tag"@),
            _ => false,
        }
    } else if reply is Ok {
        after == holds.remove((snapshot, tag))
    } else {
        after == holds && !released(reply)
    }
}

/// A hold that was released can be released again: that works too, and leaves all
/// holds as they are.
pub proof fn releasing_again_changes_nothing(
    holds: Set<(Seq<char>, Seq<char>)>,
    snapshot: Seq<char>,
    tag: Seq<char>,
    reply: Result<String, ClientError>,
    after: Set<(Seq<char>, Seq<char>)>,
    second: Result<String, ClientError>,
    again: Set<(Seq<char>, Seq<char>)>,
)
    requires
        pool_releases(holds, snapshot, tag, reply, after),
        released(reply),
        pool_releases(after, snapshot, tag, second, again),
    ensures
        released(second),
        again == after,
        !again.contains((snapshot, tag)),
{
}

/// Reads a line of a list of holds: the tag.
pub open spec fn hold_tag() -> spec_fn(Seq<char>) -> Option<Seq<char>> {
    |line: Seq<char>|
        match two_fields(line) {
            Some((_, tag)) => Some(tag),
            None => None,
        }
}

/// The tags in a list of holds.
pub fn parse_holds_output(output: &str) -> (r: Vec<String>)
    ensures
        texts(r@) == lines_of(output@).filter_map(hold_tag()),
{
    let all = lines(output);
    let mut out: Vec<String> = Vec::new();
    let mut i: usize = 0;
    let ghost f = hold_tag();
    assert(texts(out@) =~= texts(all@).take(0).filter_map(f));
    while i < all.len()
        invariant
            i <= all@.len(),
            f == hold_tag(),
            texts(out@) == texts(all@).take(i as int).filter_map(f),
        decreases all@.len() - i,
    {
        proof {
            lemma_take_filter_map(texts(all@), i as int, f);
        }
        match first_two_fields(all[i].as_str()) {
            Some((_, tag)) => {
                proof {
                    lemma_texts_push(out@, tag);
                    assert(texts(out@).push(tag@) =~= texts(out@) + seq![tag@]);
                }
                out.push(tag);
            },
            None => {},
        }
        i = i + 1;
    }
    assert(texts(all@).take(all@.len() as int) =~= texts(all@));
    out
}

/// The answer to `Holds` on one snapshot: its tags.
pub fn snapshot_holds(reply: Result<String, ClientError>) -> (r: Result<Vec<String>, ClientError>)
    ensures
        match reply {
            Ok(output) => r is Ok && texts(r->Ok_0@) == lines_of(output@).filter_map(hold_tag()),
            Err(e) => r == Err::<Vec<String>, ClientError>(e),
        },
{
    match reply {
        Ok(output) => Ok(parse_holds_output(output.as_str())),
        Err(e) => Err(e),
    }
}

/// Reads a line of a list of holds: the snapshot, where the hold is `tag`.
pub open spec fn held_under(tag: Seq<char>) -> spec_fn(Seq<char>) -> Option<Seq<char>> {
    |line: Seq<char>|
        match two_fields(line) {
            Some((name, t)) => if t == tag {
                Some(name)
            } else {
                None
            },
            None => None,
        }
}

/// The snapshots in a list of holds that are held under `tag`.
pub fn parse_held_snapshots_for_tag(output: &str, tag: &str) -> (r: Vec<String>)
    ensures
        texts(r@) == lines_of(output@).filter_map(held_under(tag@)),
{
    let all = lines(output);
    let mut out: Vec<String> = Vec::new();
    let mut i: usize = 0;
    let ghost f = held_under(tag@);
    assert(texts(out@) =~= texts(all@).take(0).filter_map(f));
    while i < all.len()
        invariant
            i <= all@.len(),
            f == held_under(tag@),
            texts(out@) == texts(all@).take(i as int).filter_map(f),
        decreases all@.len() - i,
    {
        proof {
            lemma_take_filter_map(texts(all@), i as int, f);
        }
        match first_two_fields(all[i].as_str()) {
            Some((name, t)) => {
                if str_eq(t.as_str(), tag) {
                    proof {
                        lemma_texts_push(out@, name);
                        assert(texts(out@).push(name@) =~= texts(out@) + seq![name@]);
                    }
                    out.push(name);
                }
            },
            None => {},
        }
        i = i + 1;
    }
    assert(texts(all@).take(all@.len() as int) =~= texts(all@));
    out
}

/// Whether `held` is what a search for `tag` among `snapshots` finds, when `holds`
/// is the answer to `Holds` on them. Without snapshots nothing is asked.
pub open spec fn held_among(
    snapshots: Seq<String>,
    tag: Seq<char>,
    holds: Result<String, ClientError>,
    held: Result<Vec<String>, ClientError>,
) -> bool {
    if snapshots.len() == 0 {
        held is Ok && held->Ok_0@.len() == 0
    } else {
        match holds {
            Ok(output) => held is Ok && texts(held->Ok_0@) == lines_of(output@).filter_map(
                held_under(tag),
            ),
            Err(e) => held == Err::<Vec<String>, ClientError>(e),
        }
    }
}

/// The ones of `snapshots` that are held under `tag`; `holds` is the answer to
/// `Holds` on them, which counts only where there are any.
pub fn find_held_snapshots_in(
    snapshots: &[String],
    tag: &str,
    holds: Result<String, ClientError>,
) -> (r: Result<Vec<String>, ClientError>)
    ensures
        held_among(snapshots@, tag@, holds, r),
{
    if snapshots.len() == 0 {
        return Ok(Vec::new());
    }
    match holds {
        Ok(output) => Ok(parse_held_snapshots_for_tag(output.as_str(), tag)),
        Err(e) => Err(e),
    }
}

/// Whether `held` is what a search for `tag` among the managed ones of `listed` finds,
/// when `holds` is the answer to `Holds` on those. Without managed snapshots nothing is
/// asked.
pub open spec fn held_among_managed(
    listed: Seq<Seq<char>>,
    tag: Seq<char>,
    holds: Result<String, ClientError>,
    held: Result<Vec<String>, ClientError>,
) -> bool {
    if listed.filter(managed()).len() == 0 {
        held is Ok && held->Ok_0@.len() == 0
    } else {
        match holds {
            Ok(output) => held is Ok && texts(held->Ok_0@) == lines_of(output@).filter_map(
                held_under(tag),
            ).filter(managed()),
            Err(e) => held == Err::<Vec<String>, ClientError>(e),
        }
    }
}

/// The managed snapshots of a dataset that are held under `tag`. `listed` is what
/// [`list_snapshots`] gave, and `holds` the answer to `Holds` on the managed ones of
/// those, which counts only where there are any.
pub fn find_held_snapshots(
    listed: Result<Vec<String>, ClientError>,
    tag: &str,
    holds: Result<String, ClientError>,
) -> (r: Result<Vec<String>, ClientError>)
    ensures
        match listed {
            Ok(snapshots) => held_among_managed(texts(snapshots@), tag@, holds, r),
            Err(e) => r == Err::<Vec<String>, ClientError>(e),
        },
{
    match listed {
        Ok(snapshots) => {
            let ours = filter_zrb(snapshots.as_slice());
            assert(texts(ours@).len() == ours@.len());
            match find_held_snapshots_in(ours.as_slice(), tag, holds) {
                Ok(held) => {
                    if ours.len() == 0 {
                        return Ok(held);
                    }
                    Ok(filter_zrb(held.as_slice()))
                },
                Err(e) => Err(e),
            }
        },
        Err(e) => Err(e),
    }
}

/// A snapshot is found under a tag where it is managed and a line of the answer says
/// that the tag is on it, and nowhere else.
pub proof fn found_are_managed_and_held(
    listed: Seq<Seq<char>>,
    tag: Seq<char>,
    output: String,
    held: Vec<String>,
    name: Seq<char>,
)
    requires
        held_among_managed(listed, tag, Ok(output), Ok(held)),
        listed.filter(managed()).len() > 0,
    ensures
        texts(held@).contains(name) <==> stamp(name) is Some && exists|i: int|
            0 <= i < lines_of(output@).len() && two_fields(#[trigger] lines_of(output@)[i]) == Some(
                (name, tag),
            ),
{
    let all = lines_of(output@);
    let found = all.filter_map(held_under(tag));
    lemma_held_lines(all, tag, name);
    if texts(held@).contains(name) {
        let k = choose|k: int| 0 <= k < texts(held@).len() && texts(held@)[k] == name;
        found.lemma_filter_pred(managed(), k);
        found.lemma_filter_contains_rev(managed(), name);
    }
    if found.contains(name) && stamp(name) is Some {
        let k = choose|k: int| 0 <= k < found.len() && found[k] == name;
        found.lemma_filter_contains(managed(), k);
    }
}

/// What is found under a tag stands on a line with it.
pub proof fn lemma_held_lines(all: Seq<Seq<char>>, tag: Seq<char>, name: Seq<char>)
    ensures
        all.filter_map(held_under(tag)).contains(name) <==> exists|i: int|
            0 <= i < all.len() && two_fields(#[trigger] all[i]) == Some((name, tag)),
    decreases all.len(),
{
    let f = held_under(tag);
    let n = all.len() as int;
    if n > 0 {
        let rest = all.drop_last();
        lemma_held_lines(rest, tag, name);
        lemma_take_filter_map(all, n - 1, f);
        assert(all.take(n) =~= all);
        assert(all.take(n - 1) =~= rest);
        let before = rest.filter_map(f);
        let after = all.filter_map(f);
        if after.contains(name) {
            let k = choose|k: int| 0 <= k < after.len() && after[k] == name;
            if k < before.len() {
                assert(before[k] == name);
                let i = choose|i: int|
                    0 <= i < rest.len() && two_fields(#[trigger] rest[i]) == Some((name, tag));
                assert(two_fields(all[i]) == Some((name, tag)));
            } else {
                assert(two_fields(all[n - 1]) == Some((name, tag)));
            }
        }
        if exists|i: int| 0 <= i < n && two_fields(#[trigger] all[i]) == Some((name, tag)) {
            let i = choose|i: int| 0 <= i < n && two_fields(#[trigger] all[i]) == Some((name, tag));
            if i < n - 1 {
                assert(two_fields(rest[i]) == Some((name, tag)));
                let k = choose|k: int| 0 <= k < before.len() && before[k] == name;
                assert(after[k] == name);
            } else {
                assert(after[before.len() as int] == name);
            }
        }
    }
}

/// The first of a list, or the error in its place.
pub open spec fn first_of(
    all: Result<Vec<String>, ClientError>,
    first: Result<Option<String>, ClientError>,
) -> bool {
    match all {
        Ok(v) => first == Ok::<Option<String>, ClientError>(
            if v@.len() > 0 {
                Some(v@[0])
            } else {
                None
            },
        ),
        Err(e) => first == Err::<Option<String>, ClientError>(e),
    }
}

fn first(all: Result<Vec<String>, ClientError>) -> (r: Result<Option<String>, ClientError>)
    ensures
        first_of(all, r),
{
    match all {
        Ok(v) => if v.len() > 0 {
            Ok(Some(v[0].clone()))
        } else {
            Ok(None)
        },
        Err(e) => Err(e),
    }
}

/// The first of [`find_held_snapshots`].
pub fn find_held_snapshot(
    listed: Result<Vec<String>, ClientError>,
    tag: &str,
    holds: Result<String, ClientError>,
) -> (r: Result<Option<String>, ClientError>)
    ensures
        match listed {
            Ok(snapshots) => exists|all: Result<Vec<String>, ClientError>|
                held_among_managed(texts(snapshots@), tag@, holds, all) && first_of(all, r),
            Err(e) => r == Err::<Option<String>, ClientError>(e),
        },
{
    let all = find_held_snapshots(listed, tag, holds);
    first(all)
}

/// The first of [`find_held_snapshots_in`].
pub fn find_held_snapshot_in(
    snapshots: &[String],
    tag: &str,
    holds: Result<String, ClientError>,
) -> (r: Result<Option<String>, ClientError>)
    ensures
        exists|all: Result<Vec<String>, ClientError>|
            held_among(snapshots@, tag@, holds, all) && first_of(all, r),
{
    let all = find_held_snapshots_in(snapshots, tag, holds);
    first(all)
}

/// The tags under which `name` is held, by the lines of a list of holds.
pub open spec fn tags_for(holds: Seq<Seq<char>>, name: Seq<char>) -> Seq<Seq<char>>
    decreases holds.len(),
{
    if holds.len() == 0 {
        seq![]
    } else {
        let before = tags_for(holds.drop_last(), name);
        match two_fields(holds.last()) {
            Some((n, tag)) => if n == name {
                before.push(tag)
            } else {
                before
            },
            None => before,
        }
    }
}

/// A table of the tags on snapshots, by the snapshot's name.
pub type HoldsTable = Vec<(String, Vec<String>)>;

/// The tags a table gives for `name`; none where it has no entry.
pub open spec fn held_tags(table: Seq<(String, Vec<String>)>, name: Seq<char>) -> Seq<Seq<char>> {
    match lookup(table, name) {
        Some(tags) => texts(tags@),
        None => seq![],
    }
}

/// Whether `table` holds the tags of a list of holds: an entry for each name that
/// is held, and none for others.
spec fn tallies(table: Seq<(String, Vec<String>)>, holds: Seq<Seq<char>>) -> bool {
    &&& distinct_keys(table)
    &&& forall|k: int|
        0 <= k < table.len() ==> texts((#[trigger] table[k]).1@) == tags_for(holds, table[k].0@)
            && table[k].1@.len() > 0
    &&& forall|name: Seq<char>| #[trigger]
        tags_for(holds, name).len() > 0 ==> exists|k: int|
            0 <= k < table.len() && (#[trigger] table[k]).0@ == name
}

proof fn lemma_lookup_absent<V>(table: Seq<(String, V)>, name: Seq<char>)
    requires
        lookup(table, name) is Some,
    ensures
        exists|k: int| 0 <= k < table.len() && (#[trigger] table[k]).0@ == name,
    decreases table.len(),
{
    if table[0].0@ != name {
        let rest = table.drop_first();
        lemma_lookup_absent(rest, name);
        let k = choose|k: int| 0 <= k < rest.len() && (#[trigger] rest[k]).0@ == name;
        assert(table[k + 1].0@ == name);
    }
}

proof fn lemma_tallies(table: Seq<(String, Vec<String>)>, holds: Seq<Seq<char>>, name: Seq<char>)
    requires
        tallies(table, holds),
    ensures
        held_tags(table, name) == tags_for(holds, name),
        lookup(table, name) is Some <==> tags_for(holds, name).len() > 0,
{
    if exists|k: int| 0 <= k < table.len() && (#[trigger] table[k]).0@ == name {
        let k = choose|k: int| 0 <= k < table.len() && (#[trigger] table[k]).0@ == name;
        lemma_lookup_entry(table, k);
    } else {
        if lookup(table, name) is Some {
            lemma_lookup_absent(table, name);
        }
        assert(tags_for(holds, name) =~= seq![]);
    }
}

fn entry_index(table: &HoldsTable, name: &str) -> (r: Option<usize>)
    ensures
        match r {
            Some(k) => k < table@.len() && table@[k as int].0@ == name@,
            None => forall|k: int| 0 <= k < table@.len() ==> (#[trigger] table@[k]).0@ != name@,
        },
{
    let mut k: usize = 0;
    while k < table.len()
        invariant
            k <= table@.len(),
            forall|j: int| 0 <= j < k ==> (#[trigger] table@[j]).0@ != name@,
        decreases table@.len() - k,
    {
        if str_eq(table[k].0.as_str(), name) {
            return Some(k);
        }
        k = k + 1;
    }
    None
}

/// The tags on each snapshot in a list of holds. A snapshot without holds has no
/// entry.
pub fn parse_batch_holds(output: &str) -> (r: HoldsTable)
    ensures
        distinct_keys(r@),
        forall|name: Seq<char>| #[trigger]
            held_tags(r@, name) == tags_for(lines_of(output@), name) && (lookup(r@, name) is Some
                <==> tags_for(lines_of(output@), name).len() > 0),
{
    let all = lines(output);
    let mut table: HoldsTable = Vec::new();
    let mut i: usize = 0;
    let ghost seen = texts(all@);
    assert(seen.take(0) =~= seq![]);
    while i < all.len()
        invariant
            i <= all@.len(),
            seen == texts(all@),
            tallies(table@, seen.take(i as int)),
        decreases all@.len() - i,
    {
        let ghost before = seen.take(i as int);
        let ghost after = seen.take(i + 1);
        let ghost table0 = table@;
        assert(after.drop_last() =~= before);
        assert(after.last() == all@[i as int]@);
        match first_two_fields(all[i].as_str()) {
            Some((name, tag)) => {
                assert(forall|n: Seq<char>| #[trigger]
                    tags_for(after, n) == if n == name@ {
                        tags_for(before, n).push(tag@)
                    } else {
                        tags_for(before, n)
                    });
                match entry_index(&table, name.as_str()) {
                    Some(k) => {
                        let ghost tags0 = table@[k as int].1@;
                        proof {
                            lemma_texts_push(tags0, tag);
                        }
                        table[k].1.push(tag);
                        proof {
                            assert(table@.len() == table0.len());
                            assert(forall|j: int|
                                0 <= j < table0.len() ==> (#[trigger] table@[j]).0 == table0[j].0);
                            assert forall|j: int| 0 <= j < table@.len() implies texts(
                                (#[trigger] table@[j]).1@,
                            ) == tags_for(after, table@[j].0@) && table@[j].1@.len() > 0 by {
                                if j != k {
                                    assert(table@[j] == table0[j]);
                                    assert(table0[j].0@ != table0[k as int].0@);
                                }
                            }
                            assert forall|n: Seq<char>| #[trigger] tags_for(after, n).len()
                                > 0 implies exists|j: int|
                                0 <= j < table@.len() && (#[trigger] table@[j]).0@ == n by {
                                if n == name@ {
                                    assert(table@[k as int].0@ == n);
                                } else {
                                    assert(tags_for(before, n).len() > 0);
                                    let j = choose|j: int|
                                        0 <= j < table0.len() && (#[trigger] table0[j]).0@ == n;
                                    assert(table@[j].0@ == n);
                                }
                            }
                        }
                    },
                    None => {
                        let mut tags: Vec<String> = Vec::new();
                        proof {
                            lemma_texts_push(tags@, tag);
                            assert(texts(tags@) =~= seq![]);
                            if tags_for(before, name@).len() > 0 {
                                assert(false);
                            }
                            assert(tags_for(before, name@) =~= seq![]);
                        }
                        tags.push(tag);
                        table.push((name, tags));
                        proof {
                            assert forall|j: int| 0 <= j < table@.len() implies texts(
                                (#[trigger] table@[j]).1@,
                            ) == tags_for(after, table@[j].0@) && table@[j].1@.len() > 0 by {
                                if j < table0.len() {
                                    assert(table@[j] == table0[j]);
                                    assert(table0[j].0@ != name@);
                                }
                            }
                            assert forall|n: Seq<char>| #[trigger] tags_for(after, n).len()
                                > 0 implies exists|j: int|
                                0 <= j < table@.len() && (#[trigger] table@[j]).0@ == n by {
                                if n == name@ {
                                    assert(table@[table0.len() as int].0@ == n);
                                } else {
                                    assert(tags_for(before, n).len() > 0);
                                    let j = choose|j: int|
                                        0 <= j < table0.len() && (#[trigger] table0[j]).0@ == n;
                                    assert(table@[j].0@ == n);
                                }
                            }
                        }
                    },
                }
            },
            None => {
                assert(forall|n: Seq<char>| #[trigger] tags_for(after, n) == tags_for(before, n));
            },
        }
        i = i + 1;
    }
    proof {
        assert(seen.take(all@.len() as int) =~= seen);
        assert forall|name: Seq<char>| #[trigger]
            held_tags(table@, name) == tags_for(seen, name) && (lookup(table@, name) is Some
                <==> tags_for(seen, name).len() > 0) by {
            lemma_tallies(table@, seen, name);
        }
    }
    table
}

/// The tags on each of `snapshots`; `holds` is the answer to `Holds` on them, which
/// counts only where there are any.
pub fn batch_snapshot_holds(snapshots: &[String], holds: Result<String, ClientError>) -> (r: Result<
    HoldsTable,
    ClientError,
>)
    ensures
        if snapshots@.len() == 0 {
            r is Ok && r->Ok_0@.len() == 0
        } else {
            match holds {
                Ok(output) => {
                    &&& r is Ok
                    &&& distinct_keys(r->Ok_0@)
                    &&& forall|name: Seq<char>| #[trigger]
                        held_tags(r->Ok_0@, name) == tags_for(lines_of(output@), name) && (lookup(
                            r->Ok_0@,
                            name,
                        ) is Some <==> tags_for(lines_of(output@), name).len() > 0)
                },
                Err(e) => r == Err::<HoldsTable, ClientError>(e),
            }
        },
{
    if snapshots.len() == 0 {
        return Ok(Vec::new());
    }
    match holds {
        Ok(output) => Ok(parse_batch_holds(output.as_str())),
        Err(e) => Err(e),
    }
}

} // verus!
