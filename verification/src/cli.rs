//! What the command line asks for and what it prints.

use crate::config::{keys, texts_ascending, ConfigError, ServerConfig, SourceConfig};
use crate::number::{bounded_value, decimal, decimal_text, parse_u32};
use crate::ops::prune::PruneResult;
use crate::retention::policy::{KeepReason, RetentionConfig};
use crate::snapshot::naming::{
    keyed, oldest_first, ordered_by_time, ordering_is_a_stable_sort, parse, put_by_time, stamp,
};
use crate::text::{
    cut, find_entry, has_prefix, insert_sorted, lines, lines_of, lookup, push_text, split_once,
    str_eq, strip_prefix, strs_contain, texts, texts_sorted, trim, trimmed,
};
use crate::time::Timestamp;
use crate::tui::{pad_right, padded_right};
use crate::zfs::client::{lossless, lossy_text, utf8_lossy, CommandOutput};
use vstd::prelude::*;
use vstd::string::*;

verus! {

// ---------------------------------------------------------------------------
// Arguments
// ---------------------------------------------------------------------------

/// Whether a path starts with `/`.
pub open spec fn is_absolute(ds: Seq<char>) -> bool {
    ds.len() > 0 && ds[0] == '/'
}

/// What is said of a dataset whose path starts with `/`.
pub open spec fn bad_dataset(ds: Seq<char>) -> Seq<char> {
    "invalid dataset \""@ + ds + "\": ZFS dataset paths must not start with \"/\""@
}

/// Whether a dataset can be one: its path does not start with `/`.
pub fn validate_dataset(ds: &str) -> (r: Result<(), String>)
    ensures
        match r {
            Ok(_) => !is_absolute(ds@),
            Err(e) => is_absolute(ds@) && e@ == bad_dataset(ds@),
        },
{
    if ds.unicode_len() > 0 && ds.get_char(0) == '/' {
        Err(
            "invalid dataset \"".to_owned().concat(ds).concat(
                "\": ZFS dataset paths must not start with \"/\"",
            ),
        )
    } else {
        Ok(())
    }
}

/// Whether `r` is what is said of these datasets.
pub open spec fn accepts(datasets: Seq<Seq<char>>, r: Result<(), String>) -> bool {
    match r {
        Ok(_) => forall|i: int| 0 <= i < datasets.len() ==> !is_absolute(#[trigger] datasets[i]),
        Err(e) => exists|i: int|
            0 <= i < datasets.len() && is_absolute(#[trigger] datasets[i]) && e@ == bad_dataset(
                datasets[i],
            ) && forall|j: int| 0 <= j < i ==> !is_absolute(#[trigger] datasets[j]),
    }
}

/// Whether all of these datasets can be one; the error is that of the first that
/// cannot.
pub fn validate_datasets(datasets: &[String]) -> (r: Result<(), String>)
    ensures
        accepts(texts(datasets@), r),
{
    let mut i: usize = 0;
    let ghost all = texts(datasets@);
    while i < datasets.len()
        invariant
            i <= datasets@.len(),
            all == texts(datasets@),
            forall|j: int| 0 <= j < i ==> !is_absolute(#[trigger] all[j]),
        decreases datasets@.len() - i,
    {
        assert(all[i as int] == datasets@[i as int]@);
        if let Err(e) = validate_dataset(datasets[i].as_str()) {
            assert(is_absolute(all[i as int]));
            return Err(e);
        }
        i = i + 1;
    }
    Ok(())
}

/// What pruning goes by.
#[derive(Debug)]
pub struct PruneSettings {
    pub retention: RetentionConfig,
    /// Days for which an interrupted transfer is kept.
    pub hold_days: Option<u32>,
    /// The configured datasets, in the order of their names.
    pub datasets: Vec<String>,
}

/// Whether `r` is what pruning goes by, when the file was read so as a server's
/// configuration and so as a source's.
pub open spec fn settles(
    server: Result<ServerConfig, ConfigError>,
    source: Result<SourceConfig, ConfigError>,
    r: Result<PruneSettings, ConfigError>,
) -> bool {
    match (server, source) {
        (Ok(c), _) => match r {
            Ok(p) => {
                &&& p.retention == c.retention
                &&& p.hold_days == Some(c.server.resume_hold_days)
                &&& texts_ascending(texts(p.datasets@))
                &&& forall|x: Seq<char>| #[trigger]
                    texts(p.datasets@).contains(x) <==> c.allows(x)
            },
            Err(_) => false,
        },
        (Err(_), Ok(c)) => match r {
            Ok(p) => {
                &&& p.retention == c.retention
                &&& p.hold_days is None
                &&& texts_sorted(texts(p.datasets@))
                &&& texts(p.datasets@).to_multiset() == keys(c.datasets@).to_multiset()
            },
            Err(_) => false,
        },
        (Err(_), Err(e)) => r == Err::<PruneSettings, ConfigError>(e),
    }
}

/// What pruning goes by: the configuration of a server, where the file is one, or that
/// of a source. The error is that of the source. Only a server says for how long an
/// interrupted transfer is kept.
pub fn prune_settings(
    server: Result<ServerConfig, ConfigError>,
    source: Result<SourceConfig, ConfigError>,
) -> (r: Result<PruneSettings, ConfigError>)
    ensures
        settles(server, source, r),
{
    match server {
        Ok(c) => Ok(
            PruneSettings {
                retention: c.retention,
                hold_days: Some(c.resume_hold_days()),
                datasets: c.configured_datasets(),
            },
        ),
        Err(_) => match source {
            Ok(c) => Ok(
                PruneSettings {
                    retention: c.retention,
                    hold_days: None,
                    datasets: c.configured_datasets(),
                },
            ),
            Err(e) => Err(e),
        },
    }
}

/// The datasets to work on: those that were named, or all that are configured.
pub open spec fn resolved(explicit: Vec<String>, configured: Vec<String>) -> Vec<String> {
    if explicit@.len() == 0 {
        configured
    } else {
        explicit
    }
}

/// The datasets to work on: those that were named, or all that are configured.
pub fn resolve_datasets(explicit: Vec<String>, configured: Vec<String>) -> (r: Vec<String>)
    ensures
        r == resolved(explicit, configured),
{
    if explicit.len() == 0 {
        configured
    } else {
        explicit
    }
}

// ---------------------------------------------------------------------------
// The version of ZFS
// ---------------------------------------------------------------------------

/// What is said of a line that gives no version.
pub open spec fn bad_version(line: Seq<char>) -> Seq<char> {
    "unexpected zfs version format: "@ + line
}

/// The first three of the numbers between points, where there are that many and a
/// `u32` holds each.
pub open spec fn three_numbers(s: Seq<char>) -> Option<(int, int, int)> {
    match cut(s, '.') {
        Some((a, rest)) => match cut(rest, '.') {
            Some((b, more)) => {
                let c = match cut(more, '.') {
                    Some((c, _)) => c,
                    None => more,
                };
                match (
                    bounded_value(a, u32::MAX as int),
                    bounded_value(b, u32::MAX as int),
                    bounded_value(c, u32::MAX as int),
                ) {
                    (Some(x), Some(y), Some(z)) => Some((x, y, z)),
                    _ => None,
                }
            },
            None => None,
        },
        None => None,
    }
}

/// The version that a line such as `zfs-2.3.0-1` gives.
pub open spec fn version_in(line: Seq<char>) -> Option<(int, int, int)> {
    if has_prefix(line, "zfs-"@) {
        let rest = line.skip("zfs-"@.len() as int);
        match cut(rest, '-') {
            Some((version, _)) => three_numbers(version),
            None => three_numbers(rest),
        }
    } else {
        None
    }
}

fn parse_three_numbers(s: &str) -> (r: Option<(u32, u32, u32)>)
    ensures
        match r {
            Some((x, y, z)) => three_numbers(s@) == Some((x as int, y as int, z as int)),
            None => three_numbers(s@) is None,
        },
{
    match split_once(s, '.') {
        Some((a, rest)) => match split_once(rest.as_str(), '.') {
            Some((b, more)) => {
                let c = match split_once(more.as_str(), '.') {
                    Some((c, _)) => c,
                    None => more,
                };
                match (parse_u32(a.as_str()), parse_u32(b.as_str()), parse_u32(c.as_str())) {
                    (Some(x), Some(y), Some(z)) => Some((x, y, z)),
                    _ => None,
                }
            },
            None => None,
        },
        None => None,
    }
}

/// Whether `r` is what a line such as `zfs-2.3.0-1` is read as.
pub open spec fn reads_version(line: Seq<char>, r: Result<(u32, u32, u32), String>) -> bool {
    match r {
        Ok((x, y, z)) => version_in(line) == Some((x as int, y as int, z as int)),
        Err(e) => version_in(line) is None && e@ == bad_version(line),
    }
}

/// The version that a line such as `zfs-2.3.0-1` gives.
pub fn parse_zfs_version_line(line: &str) -> (r: Result<(u32, u32, u32), String>)
    ensures
        reads_version(line@, r),
{
    let found = match strip_prefix(line, "zfs-") {
        Some(rest) => match split_once(rest.as_str(), '-') {
            Some((version, _)) => parse_three_numbers(version.as_str()),
            None => parse_three_numbers(rest.as_str()),
        },
        None => None,
    };
    match found {
        Some(version) => Ok(version),
        None => Err("unexpected zfs version format: ".to_owned().concat(line)),
    }
}

/// The first line of a text without the whitespace around it; nothing where there is
/// none.
pub open spec fn first_line(output: Seq<char>) -> Seq<char> {
    if lines_of(output).len() == 0 {
        ""@
    } else {
        trimmed(lines_of(output)[0])
    }
}

/// Whether a version is recent enough: 2.3 or later.
pub open spec fn is_recent_enough(major: int, minor: int) -> bool {
    major > 2 || (major == 2 && minor >= 3)
}

/// Whether `r` is what is said of the installed ZFS, when `zfs version` went so.
pub open spec fn judges_version(ran: Result<CommandOutput, String>, r: Result<(), String>) -> bool {
    match ran {
        Err(e) => r is Err && r->Err_0@ == "could not determine zfs version: "@ + e@,
        Ok(output) => {
            let line = first_line(lossy_text(output.stdout@));
            match version_in(line) {
                None => r is Err && r->Err_0@ == "could not determine zfs version: "@
                    + bad_version(line),
                Some((major, minor, _)) => if is_recent_enough(major, minor) {
                    r is Ok
                } else {
                    r is Err && r->Err_0@ == "zrb requires zfs >= 2.3.0, found "@ + line.skip(
                        "zfs-"@.len() as int,
                    )
                },
            }
        },
    }
}

/// Whether the installed ZFS is recent enough; `ran` is how `zfs version` went.
pub fn check_zfs_version(ran: Result<CommandOutput, String>) -> (r: Result<(), String>)
    ensures
        judges_version(ran, r),
        ran is Ok ==> lossless(ran->Ok_0.stdout@),
{
    let output = match ran {
        Ok(output) => output,
        Err(e) => {
            return Err("could not determine zfs version: ".to_owned().concat(e.as_str()));
        },
    };
    let stdout = utf8_lossy(output.stdout.as_slice());
    let all = lines(stdout.as_str());
    let line = if all.len() == 0 {
        "".to_owned()
    } else {
        trim(all[0].as_str())
    };
    assert(line@ == first_line(lossy_text(output.stdout@))) by {
        if all@.len() > 0 {
            assert(texts(all@)[0] == all@[0]@);
        }
    }
    match parse_zfs_version_line(line.as_str()) {
        Err(e) => Err("could not determine zfs version: ".to_owned().concat(e.as_str())),
        Ok((major, minor, _)) => {
            if major > 2 || (major == 2 && minor >= 3) {
                Ok(())
            } else {
                let found = match strip_prefix(line.as_str(), "zfs-") {
                    Some(rest) => rest,
                    None => line,
                };
                Err("zrb requires zfs >= 2.3.0, found ".to_owned().concat(found.as_str()))
            }
        },
    }
}

// ---------------------------------------------------------------------------
// Listings
// ---------------------------------------------------------------------------

/// The lines of one group: the dataset, and its snapshots behind two spaces.
pub open spec fn group_lines(dataset: Seq<char>, snaps: Seq<Seq<char>>) -> Seq<Seq<char>> {
    seq![dataset] + snaps.map_values(|s: Seq<char>| "  "@ + s)
}

/// The lines of a listing: groups with an empty line between them.
pub open spec fn grouped_lines(groups: Seq<(String, Vec<String>)>) -> Seq<Seq<char>>
    decreases groups.len(),
{
    if groups.len() == 0 {
        seq![]
    } else {
        let (dataset, snaps) = groups.last();
        let before = grouped_lines(groups.drop_last());
        before + (if groups.len() > 1 {
            seq![""@]
        } else {
            seq![]
        }) + group_lines(dataset@, texts(snaps@))
    }
}

/// The lines of a listing.
pub fn print_grouped(groups: &Vec<(String, Vec<String>)>) -> (r: Vec<String>)
    ensures
        texts(r@) == grouped_lines(groups@),
{
    let mut out: Vec<String> = Vec::new();
    let mut i: usize = 0;
    assert(texts(out@) =~= grouped_lines(groups@.take(0)));
    while i < groups.len()
        invariant
            i <= groups@.len(),
            texts(out@) == grouped_lines(groups@.take(i as int)),
        decreases groups@.len() - i,
    {
        let ghost before = texts(out@);
        let ghost gap: Seq<Seq<char>> = if i > 0 {
            seq![""@]
        } else {
            seq![]
        };
        if i > 0 {
            push_text(&mut out, "");
        }
        push_text(&mut out, groups[i].0.as_str());
        let snaps = &groups[i].1;
        let ghost indented = texts(snaps@).map_values(|s: Seq<char>| "  "@ + s);
        let ghost head = texts(out@);
        proof {
            assert(head =~= before + gap + seq![groups@[i as int].0@]);
            assert(head + indented.take(0) =~= head);
        }
        let mut j: usize = 0;
        while j < snaps.len()
            invariant
                j <= snaps@.len(),
                indented == texts(snaps@).map_values(|s: Seq<char>| "  "@ + s),
                texts(out@) == head + indented.take(j as int),
            decreases snaps@.len() - j,
        {
            let line = "  ".to_owned().concat(snaps[j].as_str());
            push_text(&mut out, line.as_str());
            assert(indented[j as int] == line@);
            assert(texts(out@) =~= head + indented.take(j + 1));
            j = j + 1;
        }
        proof {
            assert(indented.take(snaps@.len() as int) =~= indented);
            let more = groups@.take(i + 1);
            assert(more.drop_last() =~= groups@.take(i as int));
            assert(more.last() == groups@[i as int]);
            assert(texts(out@) =~= before + gap + group_lines(groups@[i as int].0@, texts(snaps@)));
        }
        i = i + 1;
    }
    assert(groups@.take(groups@.len() as int) =~= groups@);
    out
}

// ---------------------------------------------------------------------------
// Dry runs
// ---------------------------------------------------------------------------

/// An entry of a dry run: a snapshot, and why it is kept if it is.
pub struct Entry {
    pub name: String,
    pub reason: Option<KeepReason>,
}

/// An entry's text.
pub open spec fn entry_line(e: Entry) -> Seq<char> {
    match e.reason {
        Some(reason) => "  \u{2713} "@ + padded_right(reason.word(), 9) + " "@ + e.name@,
        None => "  \u{2717}           "@ + e.name@,
    }
}

/// The instant of an entry's snapshot.
pub open spec fn entry_time() -> spec_fn(Entry) -> Option<Timestamp> {
    |e: Entry| stamp(e.name@)
}

/// `entries` oldest first; those of one instant keep the order they stand in.
pub open spec fn entries_in_order(entries: Seq<Entry>) -> Seq<Entry> {
    ordered_by_time(entries, entry_time())
}

/// The entries of a result: what is kept, and behind it what goes.
pub open spec fn entries_of(result: PruneResult) -> Seq<Entry> {
    result.kept@.map_values(
        |k: (String, KeepReason)| Entry { name: k.0, reason: Some(k.1) },
    ) + result.deleted@.map_values(|d: String| Entry { name: d, reason: None })
}

/// The lines of what a hold protects: the first hold of each snapshot.
pub open spec fn held_lines(held: Seq<(String, String)>) -> Seq<Seq<char>>
    decreases held.len(),
{
    if held.len() == 0 {
        seq![]
    } else {
        let before = held_lines(held.drop_last());
        let (name, tag) = held.last();
        if exists|i: int| 0 <= i < held.len() - 1 && (#[trigger] held[i]).0@ == name@ {
            before
        } else {
            before.push("  \u{23f8} held       "@ + name@ + " ("@ + tag@ + ")"@)
        }
    }
}

/// The lines of one dataset in a dry run.
pub open spec fn result_lines(result: PruneResult) -> Seq<Seq<char>> {
    if result.resume_skipped {
        seq!["  \u{23f8} skipped \u{2014} resume transfer in progress"@]
    } else {
        entries_in_order(entries_of(result)).map_values(|e: Entry| entry_line(e)) + held_lines(
            result.hold_skipped@,
        )
    }
}

/// The lines of a dry run: datasets with an empty line between them.
pub open spec fn dry_run_lines(groups: Seq<(String, PruneResult)>) -> Seq<Seq<char>>
    decreases groups.len(),
{
    if groups.len() == 0 {
        seq![]
    } else {
        let (dataset, result) = groups.last();
        dry_run_lines(groups.drop_last()) + (if groups.len() > 1 {
            seq![""@]
        } else {
            seq![]
        }) + seq![dataset@] + result_lines(result)
    }
}

fn sorted_entries(result: &PruneResult) -> (r: Vec<Entry>)
    ensures
        r@ == entries_in_order(entries_of(*result)),
{
    let mut out: Vec<Entry> = Vec::new();
    let mut stamps: Vec<Option<Timestamp>> = Vec::new();
    let ghost all = entries_of(*result);
    let n: usize = result.kept.len();
    let mut i: usize = 0;
    assert(all.take(0) =~= seq![]);
    assert(stamps@ =~= out@.map_values(entry_time()));
    while i < n
        invariant
            i <= n,
            n == result.kept@.len(),
            all == entries_of(*result),
            out@ == entries_in_order(all.take(i as int)),
            stamps@ == out@.map_values(entry_time()),
        decreases n - i,
    {
        let (name, reason) = (&result.kept[i].0, result.kept[i].1);
        let taken = parse(name.as_str());
        let e = Entry { name: name.clone(), reason: Some(reason) };
        proof {
            assert(all[i as int] == e);
            assert(all.take(i + 1).drop_last() =~= all.take(i as int));
            assert(all.take(i + 1).last() == e);
        }
        put_by_time(&mut out, &mut stamps, e, taken, Ghost(entry_time()));
        i = i + 1;
    }
    let mut j: usize = 0;
    while j < result.deleted.len()
        invariant
            j <= result.deleted@.len(),
            n == result.kept@.len(),
            all == entries_of(*result),
            out@ == entries_in_order(all.take(n + j)),
            stamps@ == out@.map_values(entry_time()),
        decreases result.deleted@.len() - j,
    {
        let taken = parse(result.deleted[j].as_str());
        let e = Entry { name: result.deleted[j].clone(), reason: None };
        proof {
            assert(all[n + j] == e);
            assert(all.take(n + j + 1).drop_last() =~= all.take(n + j));
            assert(all.take(n + j + 1).last() == e);
        }
        put_by_time(&mut out, &mut stamps, e, taken, Ghost(entry_time()));
        j = j + 1;
    }
    assert(all.take(all.len() as int) =~= all);
    out
}

/// A dry run lists what is kept and what goes, each as often as the result has it, and
/// oldest first; those of one instant stand as in the result, what is kept before what
/// goes.
pub proof fn dry_run_lists_everything_in_order(result: PruneResult)
    ensures
        oldest_first(entries_in_order(entries_of(result)), entry_time()),
        entries_in_order(entries_of(result)).to_multiset() == entries_of(result).to_multiset(),
        entries_in_order(entries_of(result)).len() == result.kept@.len() + result.deleted@.len(),
        forall|t: Option<Timestamp>|
            entries_in_order(entries_of(result)).filter(#[trigger] keyed(entry_time(), t))
                == entries_of(result).filter(keyed(entry_time(), t)),
{
    ordering_is_a_stable_sort(entries_of(result), entry_time());
}

fn push_held(out: &mut Vec<String>, held: &Vec<(String, String)>)
    ensures
        texts(final(out)@) == texts(old(out)@) + held_lines(held@),
{
    let mut i: usize = 0;
    assert(texts(out@) =~= texts(old(out)@) + held_lines(held@.take(0)));
    while i < held.len()
        invariant
            i <= held@.len(),
            texts(out@) == texts(old(out)@) + held_lines(held@.take(i as int)),
        decreases held@.len() - i,
    {
        let name = held[i].0.as_str();
        let mut seen = false;
        let mut j: usize = 0;
        while j < i
            invariant
                j <= i < held@.len(),
                name@ == held@[i as int].0@,
                seen == exists|k: int| 0 <= k < j && (#[trigger] held@[k]).0@ == name@,
            decreases i - j,
        {
            if str_eq(held[j].0.as_str(), name) {
                assert(held@[j as int].0@ == name@);
                seen = true;
            }
            j = j + 1;
        }
        proof {
            let some = held@.take(i + 1);
            assert(some.drop_last() =~= held@.take(i as int));
            assert(some.last() == held@[i as int]);
            if seen {
                let k = choose|k: int| 0 <= k < i && (#[trigger] held@[k]).0@ == name@;
                assert(some[k].0@ == name@);
            } else {
                assert forall|k: int| 0 <= k < some.len() - 1 implies (#[trigger] some[k]).0@
                    != name@ by {
                    assert(held@[k].0@ != name@);
                }
            }
        }
        if !seen {
            let line = "  \u{23f8} held       ".to_owned().concat(name).concat(" (").concat(
                held[i].1.as_str(),
            ).concat(")");
            push_text(out, line.as_str());
            assert(texts(out@) =~= texts(old(out)@) + held_lines(held@.take(i as int)).push(
                line@,
            ));
        }
        i = i + 1;
    }
    assert(held@.take(held@.len() as int) =~= held@);
}

fn push_result(out: &mut Vec<String>, result: &PruneResult)
    ensures
        texts(final(out)@) == texts(old(out)@) + result_lines(*result),
{
    if result.resume_skipped {
        push_text(out, "  \u{23f8} skipped \u{2014} resume transfer in progress");
        assert(texts(out@) =~= texts(old(out)@) + result_lines(*result));
        return ;
    }
    let entries = sorted_entries(result);
    let ghost shown = entries@.map_values(|e: Entry| entry_line(e));
    let mut i: usize = 0;
    assert(texts(out@) =~= texts(old(out)@) + shown.take(0));
    while i < entries.len()
        invariant
            i <= entries@.len(),
            shown == entries@.map_values(|e: Entry| entry_line(e)),
            texts(out@) == texts(old(out)@) + shown.take(i as int),
        decreases entries@.len() - i,
    {
        let e = &entries[i];
        let line = match e.reason {
            Some(reason) => "  \u{2713} ".to_owned().concat(
                pad_right(reason.as_str(), 9).as_str(),
            ).concat(" ").concat(e.name.as_str()),
            None => "  \u{2717}           ".to_owned().concat(e.name.as_str()),
        };
        assert(shown[i as int] == line@);
        push_text(out, line.as_str());
        assert(texts(out@) =~= texts(old(out)@) + shown.take(i + 1));
        i = i + 1;
    }
    assert(shown.take(shown.len() as int) =~= shown);
    push_held(out, &result.hold_skipped);
    assert(texts(out@) =~= texts(old(out)@) + result_lines(*result));
}

/// The lines of a dry run: each snapshot with why it is kept or a mark that it goes,
/// oldest first, and then what a hold protects.
pub fn print_prune_dry_run(groups: &Vec<(String, PruneResult)>) -> (r: Vec<String>)
    ensures
        texts(r@) == dry_run_lines(groups@),
{
    let mut out: Vec<String> = Vec::new();
    let mut i: usize = 0;
    assert(texts(out@) =~= dry_run_lines(groups@.take(0)));
    while i < groups.len()
        invariant
            i <= groups@.len(),
            texts(out@) == dry_run_lines(groups@.take(i as int)),
        decreases groups@.len() - i,
    {
        let ghost before = texts(out@);
        let ghost gap: Seq<Seq<char>> = if i > 0 {
            seq![""@]
        } else {
            seq![]
        };
        if i > 0 {
            push_text(&mut out, "");
        }
        push_text(&mut out, groups[i].0.as_str());
        assert(texts(out@) =~= before + gap + seq![groups@[i as int].0@]);
        push_result(&mut out, &groups[i].1);
        proof {
            let more = groups@.take(i + 1);
            assert(more.drop_last() =~= groups@.take(i as int));
            assert(more.last() == groups@[i as int]);
        }
        i = i + 1;
    }
    assert(groups@.take(groups@.len() as int) =~= groups@);
    out
}

/// How many snapshots a hold protects.
pub open spec fn held_count(held: Seq<(String, String)>) -> int {
    held_lines(held).len() as int
}

/// The summary of a run that was no dry run.
pub fn prune_summary(dataset: &str, result: &PruneResult) -> (r: String)
    ensures
        r@ == "pruned "@ + dataset@ + ": kept "@ + decimal_text(result.kept@.len() as int)
            + ", deleted "@ + decimal_text(result.deleted@.len() as int) + ", held "@
            + decimal_text(held_count(result.hold_skipped@)),
{
    let mut held: Vec<String> = Vec::new();
    push_held(&mut held, &result.hold_skipped);
    assert(texts(held@) =~= held_lines(result.hold_skipped@)) by {
        assert(texts(Seq::<String>::empty()) =~= seq![]);
        assert(Seq::<Seq<char>>::empty() + held_lines(result.hold_skipped@) =~= held_lines(
            result.hold_skipped@,
        ));
    }
    assert(held@.len() == texts(held@).len());
    "pruned ".to_owned().concat(dataset).concat(": kept ").concat(
        decimal(result.kept.len() as u128).as_str(),
    ).concat(", deleted ").concat(decimal(result.deleted.len() as u128).as_str()).concat(
        ", held ",
    ).concat(decimal(held.len() as u128).as_str())
}

// ---------------------------------------------------------------------------
// Before the transfers
// ---------------------------------------------------------------------------

/// The names in a table of targets that a filter lets through.
pub open spec fn chosen_names(targets: Seq<(String, String)>, filter: Option<&[&str]>) -> Seq<
    Seq<char>,
>
    decreases targets.len(),
{
    if targets.len() == 0 {
        seq![]
    } else {
        let before = chosen_names(targets.drop_last(), filter);
        let name = targets.last().0@;
        if crate::ops::send::is_chosen(filter, name) {
            before.push(name)
        } else {
            before
        }
    }
}

/// Whether `names` are the remotes that a dataset is sent to, in the order of their names.
pub open spec fn are_remotes_of(
    dataset: Seq<char>,
    config: SourceConfig,
    filter: Option<&[&str]>,
    names: Seq<Seq<char>>,
) -> bool {
    &&& texts_sorted(names)
    &&& names.to_multiset() == (match lookup(config.datasets@, dataset) {
        Some(targets) => chosen_names(targets@, filter),
        None => seq![],
    }).to_multiset()
}

/// The remotes that a dataset is sent to, in the order of their names; none where the
/// dataset is not configured.
pub fn remotes_of(dataset: &str, config: &SourceConfig, filter: Option<&[&str]>) -> (r: Vec<String>)
    ensures
        are_remotes_of(dataset@, *config, filter, texts(r@)),
{
    let mut out: Vec<String> = Vec::new();
    assert(texts(out@) =~= seq![]);
    match find_entry(&config.datasets, dataset) {
        None => {},
        Some(targets) => {
            let mut i: usize = 0;
            assert(chosen_names(targets@.take(0), filter) =~= seq![]);
            while i < targets.len()
                invariant
                    i <= targets@.len(),
                    texts_sorted(texts(out@)),
                    texts(out@).to_multiset() == chosen_names(
                        targets@.take(i as int),
                        filter,
                    ).to_multiset(),
                decreases targets@.len() - i,
            {
                let name = &targets[i].0;
                let chosen = match filter {
                    Some(names) => strs_contain(names, name.as_str()),
                    None => true,
                };
                proof {
                    assert(targets@.take(i + 1).drop_last() =~= targets@.take(i as int));
                    assert(targets@.take(i + 1).last() == targets@[i as int]);
                    vstd::seq_lib::to_multiset_build(
                        chosen_names(targets@.take(i as int), filter),
                        name@,
                    );
                }
                if chosen {
                    insert_sorted(&mut out, name.clone());
                }
                i = i + 1;
            }
            assert(targets@.take(targets@.len() as int) =~= targets@);
        },
    }
    out
}

/// The keys of the rows for some datasets and their remotes.
pub open spec fn keys_for(groups: Seq<(String, Vec<String>)>) -> Seq<Seq<char>>
    decreases groups.len(),
{
    if groups.len() == 0 {
        seq![]
    } else {
        let (dataset, remotes) = groups.last();
        keys_for(groups.drop_last()) + texts(remotes@).map_values(
            |r: Seq<char>| dataset@ + " \u{2192} "@ + r,
        )
    }
}

/// The keys of the rows for some datasets and their remotes, in order.
pub fn row_keys(groups: &Vec<(String, Vec<String>)>) -> (r: Vec<String>)
    ensures
        texts_sorted(texts(r@)),
        texts(r@).to_multiset() == keys_for(groups@).to_multiset(),
{
    let mut out: Vec<String> = Vec::new();
    let mut i: usize = 0;
    assert(texts(out@) =~= keys_for(groups@.take(0)));
    while i < groups.len()
        invariant
            i <= groups@.len(),
            texts_sorted(texts(out@)),
            texts(out@).to_multiset() == keys_for(groups@.take(i as int)).to_multiset(),
        decreases groups@.len() - i,
    {
        let dataset = &groups[i].0;
        let remotes = &groups[i].1;
        let ghost before = keys_for(groups@.take(i as int));
        let ghost keys = texts(remotes@).map_values(
            |r: Seq<char>| dataset@ + " \u{2192} "@ + r,
        );
        let mut j: usize = 0;
        assert(before + keys.take(0) =~= before);
        while j < remotes.len()
            invariant
                j <= remotes@.len(),
                keys == texts(remotes@).map_values(|r: Seq<char>| dataset@ + " \u{2192} "@ + r),
                texts_sorted(texts(out@)),
                texts(out@).to_multiset() == (before + keys.take(j as int)).to_multiset(),
            decreases remotes@.len() - j,
        {
            let key = dataset.clone().concat(" \u{2192} ").concat(remotes[j].as_str());
            proof {
                assert(keys[j as int] == key@);
                assert(before + keys.take(j + 1) =~= (before + keys.take(j as int)).push(key@));
                vstd::seq_lib::to_multiset_build(before + keys.take(j as int), key@);
            }
            insert_sorted(&mut out, key);
            j = j + 1;
        }
        proof {
            assert(keys.take(keys.len() as int) =~= keys);
            assert(groups@.take(i + 1).drop_last() =~= groups@.take(i as int));
            assert(groups@.take(i + 1).last() == groups@[i as int]);
        }
        i = i + 1;
    }
    assert(groups@.take(groups@.len() as int) =~= groups@);
    out
}

} // verus!
