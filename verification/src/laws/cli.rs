//! The command line.

use crate::cli::{
    accepts, are_remotes_of, bad_dataset, chosen_names, dry_run_lines, entries_in_order, entries_of,
    entry_line, entry_time, grouped_lines, held_count, held_lines, is_absolute, judges_version,
    keys_for, reads_version, resolved, result_lines, settles, version_in, Entry, PruneSettings,
};
use crate::config::{keys, ConfigError, ServerConfig, SourceConfig};
use crate::laws::config::{allowed_datasets_are_those_of_clients, lemma_keys, lemma_same_contents};
use crate::laws::naming::not_later;
use crate::laws::send::{lemma_wanted, wanted};
use crate::laws::text::lookup_finds_the_first;
use crate::number::{decimal_reads_back, decimal_text, is_digit, lemma_decimal_text};
use crate::ops::prune::PruneResult;
use crate::retention::policy::KeepReason;
use crate::snapshot::naming::{ordering_is_a_stable_sort, stamp};
use crate::text::{
    cut, lemma_cut, lemma_cut_join, lines_of, lookup, occurs, occurs_at, text_less, texts, trimmed,
};
use crate::tui::padded_right;
use crate::zfs::client::{lossy_text, CommandOutput};
use vstd::prelude::*;
use vstd::string::*;

verus! {

/// A path is refused exactly where it starts with a slash.
pub proof fn only_absolute_paths_are_refused(ds: Seq<char>)
    ensures
        is_absolute(ds) <==> exists|rest: Seq<char>| ds == #[trigger] (seq!['/'] + rest),
{
    if is_absolute(ds) {
        assert(ds =~= seq!['/'] + ds.skip(1));
    }
}

/// What is named is worked on as it is named; only where nothing is, all that is
/// configured.
pub proof fn named_datasets_come_first(explicit: Vec<String>, configured: Vec<String>)
    ensures
        explicit@.len() > 0 ==> resolved(explicit, configured) == explicit,
        explicit@.len() == 0 ==> resolved(explicit, configured) == configured,
{
}

// ---------------------------------------------------------------------------
// The version of ZFS
// ---------------------------------------------------------------------------

proof fn lemma_plain(n: int)
    requires
        n >= 0,
    ensures
        !decimal_text(n).contains('.'),
        !decimal_text(n).contains('-'),
{
    lemma_decimal_text(n);
    let s = decimal_text(n);
    assert forall|i: int| 0 <= i < s.len() implies s[i] != '.' && s[i] != '-' by {
        assert(is_digit(s[i]));
    }
}

/// A line that starts with `zfs-` and three numbers with points between them gives these
/// as the version, whatever stands behind a dash.
#[verifier::rlimit(40)]
pub proof fn versions_are_three_numbers(a: int, b: int, c: int, x: Seq<char>)
    requires
        0 <= a <= u32::MAX,
        0 <= b <= u32::MAX,
        0 <= c <= u32::MAX,
        x.len() == 0 || x[0] == '-',
    ensures
        version_in(
            "zfs-"@ + ((decimal_text(a).push('.') + (decimal_text(b).push('.') + decimal_text(c)))
                + x),
        ) == Some((a, b, c)),
{
    let bc = decimal_text(b).push('.') + decimal_text(c);
    let v = decimal_text(a).push('.') + bc;
    let rest = v + x;
    let line = "zfs-"@ + rest;
    lemma_plain(a);
    lemma_plain(b);
    lemma_plain(c);
    decimal_reads_back(a);
    decimal_reads_back(b);
    decimal_reads_back(c);
    assert(line.subrange(0, "zfs-"@.len() as int) =~= "zfs-"@);
    assert(line.skip("zfs-"@.len() as int) =~= rest);
    assert forall|i: int| 0 <= i < v.len() implies v[i] != '-' by {
        let p = decimal_text(a).len() as int;
        let q = p + 1 + decimal_text(b).len();
        if i < p {
            assert(v[i] == decimal_text(a)[i]);
        } else if p < i && i < q {
            assert(v[i] == decimal_text(b)[i - p - 1]);
        } else if i > q {
            assert(v[i] == decimal_text(c)[i - q - 1]);
        }
    }
    assert(!v.contains('-'));
    if x.len() == 0 {
        assert(rest =~= v);
        lemma_cut(rest, '-');
        if cut(rest, '-') is Some {
            let (p, q) = cut(rest, '-')->0;
            assert(rest[p.len() as int] == '-');
        }
    } else {
        assert(rest =~= v.push('-') + x.skip(1));
        lemma_cut_join(v, '-', x.skip(1));
    }
    lemma_cut_join(decimal_text(a), '.', bc);
    lemma_cut_join(decimal_text(b), '.', decimal_text(c));
    lemma_cut(decimal_text(c), '.');
    if cut(decimal_text(c), '.') is Some {
        let (p, q) = cut(decimal_text(c), '.')->0;
        assert(decimal_text(c)[p.len() as int] == '.');
    }
}

/// The installed ZFS is accepted exactly where `zfs version` ran and its first line, with
/// no whitespace around it, gives a version from 2.3 on.
pub proof fn versions_from_two_three_on_are_accepted(
    ran: Result<CommandOutput, String>,
    r: Result<(), String>,
)
    requires
        judges_version(ran, r),
    ensures
        r is Ok <==> ran is Ok && lines_of(lossy_text(ran->Ok_0.stdout@)).len() > 0 && match version_in(
            trimmed(lines_of(lossy_text(ran->Ok_0.stdout@))[0]),
        ) {
            Some((major, minor, _)) => major >= 3 || (major == 2 && minor >= 3),
            None => false,
        },
{
    reveal_strlit("");
    reveal_strlit("zfs-");
}

/// A line that gives no version is named in the error, and so is a version that is too old,
/// without what stands in front of its numbers. Where `zfs version` did not run, the error
/// says why.
pub proof fn version_errors_say_what_was_found(
    line: Seq<char>,
    read: Result<(u32, u32, u32), String>,
    ran: Result<CommandOutput, String>,
    judged: Result<(), String>,
)
    requires
        reads_version(line, read),
        judges_version(ran, judged),
        ran is Ok ==> lines_of(lossy_text(ran->Ok_0.stdout@)).len() > 0 && line == trimmed(
            lines_of(lossy_text(ran->Ok_0.stdout@))[0],
        ),
    ensures
        read is Err ==> read->Err_0@ == "unexpected zfs version format: "@ + line,
        read is Err && ran is Ok ==> judged is Err && judged->Err_0@
            == "could not determine zfs version: "@ + read->Err_0@,
        ran is Err ==> judged is Err && judged->Err_0@ == "could not determine zfs version: "@
            + ran->Err_0@,
        ran is Ok && read is Ok ==> (judged is Err <==> read->Ok_0.0 < 2 || (read->Ok_0.0 == 2
            && read->Ok_0.1 < 3)),
        forall|numbers: Seq<char>|
            ran is Ok && read is Ok && judged is Err && line == #[trigger] ("zfs-"@ + numbers)
                ==> judged->Err_0@ == "zrb requires zfs >= 2.3.0, found "@ + numbers,
{
    reveal_strlit("zfs-");
    assert forall|numbers: Seq<char>|
        ran is Ok && read is Ok && judged is Err && line == #[trigger] ("zfs-"@ + numbers) implies
        judged->Err_0@ == "zrb requires zfs >= 2.3.0, found "@ + numbers by {
        assert(line.skip("zfs-"@.len() as int) =~= numbers);
    }
}

// ---------------------------------------------------------------------------
// Remotes and rows
// ---------------------------------------------------------------------------

proof fn lemma_chosen(targets: Seq<(String, String)>, filter: Option<&[&str]>, name: Seq<char>)
    ensures
        chosen_names(targets, filter).contains(name) <==> wanted(filter, name) && exists|i: int|
            0 <= i < targets.len() && (#[trigger] targets[i]).0@ == name,
    decreases targets.len(),
{
    if targets.len() > 0 {
        let rest = targets.drop_last();
        let n = targets.len() - 1;
        lemma_chosen(rest, filter, name);
        lemma_wanted(filter, targets.last().0@);
        let before = chosen_names(rest, filter);
        let after = chosen_names(targets, filter);
        if after.contains(name) {
            let k = choose|k: int| 0 <= k < after.len() && after[k] == name;
            if k < before.len() {
                assert(before[k] == name);
                let i = choose|i: int| 0 <= i < rest.len() && (#[trigger] rest[i]).0@ == name;
                assert(targets[i].0@ == name);
            } else {
                assert(targets[n].0@ == name);
            }
        }
        if wanted(filter, name) && exists|i: int|
            0 <= i < targets.len() && (#[trigger] targets[i]).0@ == name {
            let i = choose|i: int| 0 <= i < targets.len() && (#[trigger] targets[i]).0@ == name;
            if i < n {
                assert(rest[i].0@ == name);
                let k = choose|k: int| 0 <= k < before.len() && before[k] == name;
                assert(after[k] == name);
            } else {
                assert(after[before.len() as int] == name);
            }
        }
    }
}

/// The remotes that are shown for a dataset are those in its entry that no filter shuts
/// out, all of them and in the order of their names.
#[verifier::rlimit(40)]
pub proof fn every_wanted_remote_is_shown(
    dataset: Seq<char>,
    config: SourceConfig,
    filter: Option<&[&str]>,
    names: Seq<Seq<char>>,
    name: Seq<char>,
)
    requires
        are_remotes_of(dataset, config, filter, names),
    ensures
        names.contains(name) ==> wanted(filter, name) && exists|d: int, i: int|
            0 <= d < config.datasets@.len() && (#[trigger] config.datasets@[d]).0@ == dataset && 0
                <= i < config.datasets@[d].1@.len() && (#[trigger] config.datasets@[d].1@[i]).0@
                == name,
        forall|d: int, i: int|
            0 <= d < config.datasets@.len() && (#[trigger] config.datasets@[d]).0@ == dataset && (
            forall|j: int| 0 <= j < d ==> (#[trigger] config.datasets@[j]).0@ != dataset) && 0 <= i
                < config.datasets@[d].1@.len() && (#[trigger] config.datasets@[d].1@[i]).0@ == name
                && wanted(filter, name) ==> names.contains(name),
        forall|i: int, j: int|
            0 <= i < j < names.len() ==> !text_less(#[trigger] names[j], #[trigger] names[i]),
{
    broadcast use vstd::seq_lib::group_to_multiset_ensures;

    lookup_finds_the_first(config.datasets@, dataset);
    match lookup(config.datasets@, dataset) {
        Some(targets) => {
            let d = choose|d: int|
                0 <= d < config.datasets@.len() && (#[trigger] config.datasets@[d]).0@ == dataset
                    && config.datasets@[d].1 == targets && forall|j: int|
                    0 <= j < d ==> (#[trigger] config.datasets@[j]).0@ != dataset;
            let chosen = chosen_names(targets@, filter);
            lemma_chosen(targets@, filter, name);
            assert(names.contains(name) <==> chosen.contains(name));
            if names.contains(name) {
                let i = choose|i: int|
                    0 <= i < targets@.len() && (#[trigger] targets@[i]).0@ == name;
                assert(config.datasets@[d].1@[i].0@ == name);
            }
            assert forall|e: int, i: int|
                0 <= e < config.datasets@.len() && (#[trigger] config.datasets@[e]).0@ == dataset
                    && (forall|j: int|
                    0 <= j < e ==> (#[trigger] config.datasets@[j]).0@ != dataset) && 0 <= i
                    < config.datasets@[e].1@.len() && (#[trigger] config.datasets@[e].1@[i]).0@
                    == name && wanted(filter, name) implies names.contains(name) by {
                if e < d {
                    assert(config.datasets@[e].0@ != dataset);
                }
                if d < e {
                    assert(config.datasets@[d].0@ != dataset);
                }
                assert(targets@[i].0@ == name);
            }
        },
        None => {
            if names.contains(name) {
                assert(names.to_multiset().count(name) > 0);
                assert(Seq::<Seq<char>>::empty().contains(name));
            }
        },
    }
}

/// Every remote of every dataset has its row, under a key of both their names, and there
/// are no other rows.
#[verifier::rlimit(40)]
pub proof fn every_remote_has_its_row(groups: Seq<(String, Vec<String>)>, key: Seq<char>)
    ensures
        keys_for(groups).contains(key) <==> exists|g: int, i: int|
            0 <= g < groups.len() && 0 <= i < (#[trigger] groups[g]).1@.len() && key
                == groups[g].0@ + " \u{2192} "@ + (#[trigger] groups[g].1@[i])@,
    decreases groups.len(),
{
    if groups.len() > 0 {
        let rest = groups.drop_last();
        let n = groups.len() - 1;
        let (dataset, remotes) = groups.last();
        let keys = texts(remotes@).map_values(|r: Seq<char>| dataset@ + " \u{2192} "@ + r);
        let before = keys_for(rest);
        let after = keys_for(groups);
        every_remote_has_its_row(rest, key);
        assert(after == before + keys);
        if after.contains(key) {
            let k = choose|k: int| 0 <= k < after.len() && after[k] == key;
            if k < before.len() {
                assert(before[k] == key);
                let (g, i) = choose|g: int, i: int|
                    0 <= g < rest.len() && 0 <= i < (#[trigger] rest[g]).1@.len() && key
                        == rest[g].0@ + " \u{2192} "@ + (#[trigger] rest[g].1@[i])@;
                assert(groups[g] == rest[g]);
                assert(groups[g].1@[i] == rest[g].1@[i]);
            } else {
                let i = k - before.len();
                assert(keys[i] == key);
                assert(texts(remotes@)[i] == remotes@[i]@);
                assert(groups[n].1@[i]@ == remotes@[i]@);
            }
        }
        if exists|g: int, i: int|
            0 <= g < groups.len() && 0 <= i < (#[trigger] groups[g]).1@.len() && key
                == groups[g].0@ + " \u{2192} "@ + (#[trigger] groups[g].1@[i])@ {
            let (g, i) = choose|g: int, i: int|
                0 <= g < groups.len() && 0 <= i < (#[trigger] groups[g]).1@.len() && key
                    == groups[g].0@ + " \u{2192} "@ + (#[trigger] groups[g].1@[i])@;
            if g < n {
                assert(rest[g] == groups[g]);
                assert(rest[g].1@[i] == groups[g].1@[i]);
                let k = choose|k: int| 0 <= k < before.len() && before[k] == key;
                assert(after[k] == key);
            } else {
                assert(texts(remotes@)[i] == remotes@[i]@);
                assert(keys[i] == key);
                assert(after[before.len() + i] == key);
            }
        }
    }
}

// ---------------------------------------------------------------------------
// Lines
// ---------------------------------------------------------------------------

/// A listing gets longer by a group: an empty line where there was one before, the
/// dataset, and each of its snapshots behind two spaces.
pub proof fn groups_are_listed_one_by_one(
    groups: Seq<(String, Vec<String>)>,
    dataset: String,
    snaps: Vec<String>,
)
    ensures
        ({
            let before = grouped_lines(groups);
            let after = grouped_lines(groups.push((dataset, snaps)));
            let gap = if groups.len() > 0 {
                1int
            } else {
                0
            };
            &&& after.len() == before.len() + gap + 1 + snaps@.len()
            &&& forall|i: int| 0 <= i < before.len() ==> after[i] == #[trigger] before[i]
            &&& groups.len() > 0 ==> after[before.len() as int].len() == 0
            &&& after[before.len() + gap] == dataset@
            &&& forall|i: int|
                0 <= i < snaps@.len() ==> after[before.len() + gap + 1 + i] == seq![' ', ' '] + (
                #[trigger] snaps@[i])@
        }),
        grouped_lines(seq![]).len() == 0,
{
    let all = groups.push((dataset, snaps));
    assert(all.drop_last() =~= groups);
    reveal_strlit("");
    reveal_strlit("  ");
    assert("  "@ =~= seq![' ', ' ']);
    let names = texts(snaps@);
    assert forall|i: int| 0 <= i < snaps@.len() implies names[i] == (#[trigger] snaps@[i])@ by {}
}

/// The words for why a snapshot is kept.
pub proof fn reasons_have_their_words()
    ensures
        KeepReason::Daily.word() == "daily"@,
        KeepReason::Weekly.word() == "weekly"@,
        KeepReason::Monthly.word() == "monthly"@,
        KeepReason::Yearly.word() == "yearly"@,
{
}

/// A text is padded with spaces behind it up to a width, and not changed otherwise.
pub proof fn padding_adds_spaces_behind(s: Seq<char>, width: int)
    ensures
        ({
            let p = padded_right(s, width);
            &&& p.len() == if s.len() < width {
                width
            } else {
                s.len() as int
            }
            &&& p.take(s.len() as int) == s
            &&& forall|i: int| s.len() <= i < p.len() ==> #[trigger] p[i] == ' '
        }),
{
    assert(padded_right(s, width).take(s.len() as int) =~= s);
}

proof fn lemma_shown(result: PruneResult, e: Entry)
    requires
        entries_of(result).contains(e),
        !result.resume_skipped,
    ensures
        result_lines(result).contains(entry_line(e)),
{
    broadcast use vstd::seq_lib::group_to_multiset_ensures;

    let all = entries_of(result);
    let order = entries_in_order(all);
    ordering_is_a_stable_sort(all, entry_time());
    assert(all.to_multiset().count(e) > 0);
    assert(order.contains(e));
    let k = choose|k: int| 0 <= k < order.len() && order[k] == e;
    let shown = order.map_values(|x: Entry| entry_line(x));
    assert(shown[k] == entry_line(e));
    assert(result_lines(result)[k] == entry_line(e));
}

/// A dry run shows every snapshot that is kept with the word for why, and every one that
/// goes with a mark for that.
pub proof fn every_snapshot_is_shown_with_its_fate(result: PruneResult, i: int, j: int)
    requires
        !result.resume_skipped,
        0 <= i < result.kept@.len(),
        0 <= j < result.deleted@.len(),
    ensures
        result_lines(result).contains(
            "  \u{2713} "@ + padded_right(result.kept@[i].1.word(), 9) + " "@ + result.kept@[i].0@,
        ),
        result_lines(result).contains("  \u{2717}           "@ + result.deleted@[j]@),
{
    let all = entries_of(result);
    let k = Entry { name: result.kept@[i].0, reason: Some(result.kept@[i].1) };
    let d = Entry { name: result.deleted@[j], reason: None };
    assert(all[i] == k);
    assert(all[result.kept@.len() + j] == d);
    lemma_shown(result, k);
    lemma_shown(result, d);
}

/// What a dry run shows of a dataset is as many lines as snapshots are kept, go, or are
/// held; or one, where an interrupted transfer waits. They are the oldest first.
pub proof fn dry_runs_show_as_many_lines_as_snapshots(result: PruneResult)
    ensures
        result.resume_skipped ==> result_lines(result).len() == 1,
        !result.resume_skipped ==> result_lines(result).len() == result.kept@.len()
            + result.deleted@.len() + held_count(result.hold_skipped@),
        forall|i: int, j: int|
            0 <= i < j < entries_in_order(entries_of(result)).len() ==> match (
                stamp((#[trigger] entries_in_order(entries_of(result))[i]).name@),
                stamp((#[trigger] entries_in_order(entries_of(result))[j]).name@),
            ) {
                (Some(a), Some(b)) => not_later(a, b),
                (Some(_), None) => false,
                (None, _) => true,
            },
{
    let all = entries_of(result);
    ordering_is_a_stable_sort(all, entry_time());
    let order = entries_in_order(all);
    assert forall|i: int, j: int| 0 <= i < j < order.len() implies match (
        stamp((#[trigger] order[i]).name@),
        stamp((#[trigger] order[j]).name@),
    ) {
        (Some(a), Some(b)) => not_later(a, b),
        (Some(_), None) => false,
        (None, _) => true,
    } by {
        assert(crate::snapshot::naming::stamp_le(entry_time()(order[i]), entry_time()(order[j])));
    }
}

/// The names of what a hold protects.
pub open spec fn held_names(held: Seq<(String, String)>) -> Seq<Seq<char>> {
    held.map_values(|h: (String, String)| h.0@)
}

/// Every snapshot that a hold protects is counted once, however many holds it has.
pub proof fn held_snapshots_count_once(held: Seq<(String, String)>)
    ensures
        held_count(held) == held_names(held).to_set().len(),
    decreases held.len(),
{
    let names = held_names(held);
    if held.len() == 0 {
        assert(names.to_set() =~= Set::<Seq<char>>::empty());
    } else {
        let rest = held.drop_last();
        held_snapshots_count_once(rest);
        let few = held_names(rest);
        let last = held.last().0@;
        assert(names =~= few.push(last));
        few.lemma_push_to_set_commute(last);
        assert(names.to_set() == few.to_set().insert(last));
        few.lemma_cardinality_of_set();
        lemma_known(held);
        if few.contains(last) {
            assert(few.to_set().insert(last) =~= few.to_set());
        }
    }
}

proof fn lemma_known(held: Seq<(String, String)>)
    requires
        held.len() > 0,
    ensures
        held_names(held.drop_last()).contains(held.last().0@) <==> exists|i: int|
            0 <= i < held.len() - 1 && (#[trigger] held[i]).0@ == held.last().0@,
{
    let few = held_names(held.drop_last());
    let last = held.last().0@;
    if few.contains(last) {
        let i = choose|i: int| 0 <= i < few.len() && few[i] == last;
        assert(held[i].0@ == last);
    }
    if exists|i: int| 0 <= i < held.len() - 1 && (#[trigger] held[i]).0@ == last {
        let i = choose|i: int| 0 <= i < held.len() - 1 && (#[trigger] held[i]).0@ == last;
        assert(few[i] == last);
    }
}

/// What a dry run says of a snapshot that a hold protects.
pub open spec fn held_line(name: Seq<char>, tag: Seq<char>) -> Seq<char> {
    "  \u{23f8} held       "@ + name + " ("@ + tag + ")"@
}

/// Every snapshot that a hold protects is shown with the first of its holds.
pub proof fn held_snapshots_are_shown(held: Seq<(String, String)>, i: int)
    requires
        0 <= i < held.len(),
        forall|j: int| 0 <= j < i ==> (#[trigger] held[j]).0@ != held[i].0@,
    ensures
        held_lines(held).contains(held_line(held[i].0@, held[i].1@)),
    decreases held.len(),
{
    let rest = held.drop_last();
    let n = held.len() - 1;
    let before = held_lines(rest);
    let after = held_lines(held);
    let line = held_line(held[i].0@, held[i].1@);
    if i < n {
        assert(rest[i] == held[i]);
        assert forall|j: int| 0 <= j < i implies (#[trigger] rest[j]).0@ != rest[i].0@ by {
            assert(held[j].0@ != held[i].0@);
        }
        held_snapshots_are_shown(rest, i);
        let k = choose|k: int| 0 <= k < before.len() && before[k] == line;
        assert(after[k] == line);
    } else {
        assert(after[before.len() as int] == line);
    }
}

/// A dry run gets longer by a dataset: an empty line where there was one before, the
/// dataset, and what is shown of it.
pub proof fn dry_runs_show_datasets_one_by_one(
    groups: Seq<(String, PruneResult)>,
    dataset: String,
    result: PruneResult,
)
    ensures
        dry_run_lines(groups.push((dataset, result))) == dry_run_lines(groups) + (
        if groups.len() > 0 {
            seq![Seq::<char>::empty()]
        } else {
            Seq::<Seq<char>>::empty()
        }) + seq![dataset@] + result_lines(result),
        dry_run_lines(seq![]).len() == 0,
{
    let all = groups.push((dataset, result));
    assert(all.drop_last() =~= groups);
    reveal_strlit("");
    assert(""@ =~= Seq::<char>::empty());
}

/// Datasets are accepted exactly where none of them starts with a slash; else the first
/// that does is named.
pub proof fn the_first_absolute_path_is_named(datasets: Seq<Seq<char>>, r: Result<(), String>)
    requires
        accepts(datasets, r),
    ensures
        r is Ok <==> forall|i: int|
            0 <= i < datasets.len() ==> !((#[trigger] datasets[i]).len() > 0 && datasets[i][0]
                == '/'),
        r is Err ==> exists|i: int|
            0 <= i < datasets.len() && (#[trigger] datasets[i]).len() > 0 && datasets[i][0] == '/'
                && occurs(r->Err_0@, datasets[i]) && forall|j: int|
                0 <= j < i ==> !((#[trigger] datasets[j]).len() > 0 && datasets[j][0] == '/'),
{
    if let Err(e) = r {
        let i = choose|i: int|
            0 <= i < datasets.len() && is_absolute(#[trigger] datasets[i]) && e@ == bad_dataset(
                datasets[i],
            ) && forall|j: int| 0 <= j < i ==> !is_absolute(#[trigger] datasets[j]);
        let n = "invalid dataset \""@.len() as int;
        assert(e@.subrange(n, n + datasets[i].len()) =~= datasets[i]);
        assert(occurs_at(e@, datasets[i], n));
        assert forall|j: int| 0 <= j < i implies !((#[trigger] datasets[j]).len() > 0
            && datasets[j][0] == '/') by {
            assert(!is_absolute(datasets[j]));
        }
    } else {
        assert forall|i: int| 0 <= i < datasets.len() implies !((#[trigger] datasets[i]).len() > 0
            && datasets[i][0] == '/') by {
            assert(!is_absolute(datasets[i]));
        }
    }
}

/// Pruning goes by a server's configuration wherever the file is one: by its retention, by
/// the days that it sets, and on what its clients may send to. Else it goes by a source's,
/// without days, and on what that sends. It fails exactly where the file is neither.
pub proof fn pruning_goes_by_what_the_file_is(
    server: Result<ServerConfig, ConfigError>,
    source: Result<SourceConfig, ConfigError>,
    r: Result<PruneSettings, ConfigError>,
    name: Seq<char>,
)
    requires
        settles(server, source, r),
    ensures
        r is Ok <==> server is Ok || source is Ok,
        server is Ok ==> ({
            let c = server->Ok_0;
            let p = r->Ok_0;
            &&& p.retention == c.retention
            &&& p.hold_days == Some(c.server.resume_hold_days)
            &&& texts(p.datasets@).contains(name) <==> exists|i: int, k: int|
                0 <= i < c.clients@.len() && 0 <= k < (#[trigger] c.clients@[i]).1.allow@.len() && (
                #[trigger] c.clients@[i].1.allow@[k])@ == name
        }),
        server is Err && source is Ok ==> ({
            let c = source->Ok_0;
            let p = r->Ok_0;
            &&& p.retention == c.retention
            &&& p.hold_days is None
            &&& texts(p.datasets@).contains(name) <==> exists|i: int|
                0 <= i < c.datasets@.len() && (#[trigger] c.datasets@[i]).0@ == name
        }),
        server is Err && source is Err ==> r == Err::<PruneSettings, ConfigError>(source->Err_0),
{
    if let Ok(c) = server {
        allowed_datasets_are_those_of_clients(c, name);
    } else if let Ok(c) = source {
        lemma_same_contents(texts(r->Ok_0.datasets@), keys(c.datasets@), name);
        lemma_keys(c.datasets@, name);
    }
}

} // verus!
