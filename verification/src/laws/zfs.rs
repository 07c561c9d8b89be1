//! What `zfs` is told, and what it says.

use crate::config::ConfigError;
use crate::laws::naming::new_names_say_dataset_and_time;
use crate::laws::prune::says_held;
use crate::laws::text::{held_text_has_surroundings, prefix_stands_in_front};
use crate::ops::list::{groups_of, in_subtree, listing};
use crate::ops::snapshot::takes;
use crate::protocol::codec::CodecError;
use crate::ssh::transport::TransportError;
use crate::text::{
    cut, find_from, has_prefix, is_space, lemma_cut, lemma_cut_join, lemma_find_from, lines_of,
    occurs, occurs_at, texts, trimmed, trimmed_end, two_fields,
};
use crate::time::{formatted_instant, rfc3339_instant, rfc3339_text, Timestamp, TIMESTAMP_FMT};
use crate::zfs::client::{
    discovered_in, first_of, held_among, held_under, hold_tag, lemma_held_lines,
    lemma_take_filter_map, listed_name, managed_dataset, may_destroy, runs_merged, says_not_found,
    since_of, token_of, ClientError, ZfsCommand,
};
use crate::zfs::estimator::{first_with, size_text, unit_size};
use vstd::prelude::*;
use vstd::string::*;

verus! {

// ---------------------------------------------------------------------------
// Commands
// ---------------------------------------------------------------------------

/// A stream is written from the base behind `-i`, where there is one; the snapshot stands
/// behind that, and behind it all options in their order. A token stands behind `-t`. The
/// commands that estimate a stream have the same arguments behind `-n -v`.
pub proof fn streams_are_told_base_snapshot_and_options(
    base: Option<String>,
    snapshot: String,
    token: String,
    opts: Vec<String>,
)
    ensures
        ({
            let b = if base is Some {
                2int
            } else {
                0
            };
            let n = opts@.len();
            let send = (ZfsCommand::Send { base, snapshot, opts }).arg_texts();
            let estimate = (ZfsCommand::EstimateSend { base, snapshot, opts }).arg_texts();
            &&& send.len() == 2 + b + n
            &&& send[0] == "send"@
            &&& base is Some ==> send[1] == "-i"@ && send[2] == base->0@
            &&& send[1 + b] == snapshot@
            &&& forall|i: int| 0 <= i < n ==> send[2 + b + i] == (#[trigger] opts@[i])@
            &&& estimate.len() == send.len() + 2
            &&& estimate[0] == "send"@ && estimate[1] == "-n"@ && estimate[2] == "-v"@
            &&& forall|i: int| 1 <= i < send.len() ==> estimate[i + 2] == #[trigger] send[i]
        }),
        ({
            let n = opts@.len();
            let send = (ZfsCommand::SendResume { token, opts }).arg_texts();
            let estimate = (ZfsCommand::EstimateResume { token, opts }).arg_texts();
            &&& send.len() == 3 + n
            &&& send[0] == "send"@ && send[1] == "-t"@ && send[2] == token@
            &&& forall|i: int| 0 <= i < n ==> send[3 + i] == (#[trigger] opts@[i])@
            &&& estimate.len() == send.len() + 2
            &&& estimate[0] == "send"@ && estimate[1] == "-n"@ && estimate[2] == "-v"@
            &&& forall|i: int| 1 <= i < send.len() ==> estimate[i + 2] == #[trigger] send[i]
        }),
{
    let all = texts(opts@);
    assert forall|i: int| 0 <= i < opts@.len() implies all[i] == (#[trigger] opts@[i])@ by {}
}

/// A stream is taken in on the dataset, so that it can be resumed, and with all options in
/// their order. What arrived of one is given up with `-A`.
pub proof fn receivers_are_told_dataset_and_options(dataset: String, opts: Vec<String>)
    ensures
        ({
            let n = opts@.len();
            let args = (ZfsCommand::Receive { dataset, opts }).arg_texts();
            &&& args.len() == 3 + n
            &&& args[0] == "receive"@ && args[1] == "-s"@ && args[2] == dataset@
            &&& forall|i: int| 0 <= i < n ==> args[3 + i] == (#[trigger] opts@[i])@
        }),
        (ZfsCommand::AbortResume { dataset }).arg_texts() == seq!["receive"@, "-A"@, dataset@],
{
    let all = texts(opts@);
    assert forall|i: int| 0 <= i < opts@.len() implies all[i] == (#[trigger] opts@[i])@ by {}
}

/// Snapshots are taken, destroyed, held and released under the name and the tag that are
/// given; holds are listed of all snapshots that are given.
pub proof fn snapshots_are_named_in_full(
    dataset: String,
    name: String,
    snapshot: String,
    tag: String,
    snapshots: Vec<String>,
)
    ensures
        (ZfsCommand::CreateSnapshot { dataset, name }).arg_texts() == seq![
            "snapshot"@,
            dataset@.push('@') + name@,
        ],
        (ZfsCommand::DestroySnapshot { snapshot }).arg_texts() == seq!["destroy"@, snapshot@],
        (ZfsCommand::Hold { snapshot, tag }).arg_texts() == seq!["hold"@, tag@, snapshot@],
        (ZfsCommand::Release { snapshot, tag }).arg_texts() == seq!["release"@, tag@, snapshot@],
        ({
            let args = (ZfsCommand::Holds { snapshots }).arg_texts();
            &&& args.len() == 2 + snapshots@.len()
            &&& args[0] == "holds"@ && args[1] == "-H"@
            &&& forall|i: int|
                0 <= i < snapshots@.len() ==> args[2 + i] == (#[trigger] snapshots@[i])@
        }),
{
    reveal_strlit("@");
    assert(dataset@ + "@"@ + name@ =~= dataset@.push('@') + name@);
    let all = texts(snapshots@);
    assert forall|i: int| 0 <= i < snapshots@.len() implies all[i] == (
    #[trigger] snapshots@[i])@ by {}
}

/// The note since when a transfer waits is asked for, set and dropped under one name and
/// on the dataset that is given; what is set is the instant.
pub proof fn notes_are_kept_under_one_name(dataset: String, since: Timestamp)
    ensures
        ({
            let get = (ZfsCommand::GetResumeSince { dataset }).arg_texts();
            let set_to = (ZfsCommand::SetResumeSince { dataset, since }).arg_texts();
            let clear = (ZfsCommand::ClearResumeSince { dataset }).arg_texts();
            let name = get[get.len() - 2];
            &&& get[0] == "get"@ && get[get.len() - 1] == dataset@
            &&& set_to.len() == 3 && set_to[0] == "set"@ && set_to[2] == dataset@
            &&& set_to[1] == name.push('=') + rfc3339_text(since.secs, since.nanos)
            &&& clear == seq!["inherit"@, name, dataset@]
        }),
        ({
            let get = (ZfsCommand::GetResumeToken { dataset }).arg_texts();
            get[0] == "get"@ && get[get.len() - 2] == "receive_resume_token"@ && get[get.len() - 1]
                == dataset@
        }),
{
    reveal_strlit("zrb:resume-since=");
    reveal_strlit("zrb:resume-since");
    assert("zrb:resume-since="@ =~= "zrb:resume-since"@.push('='));
}

/// Only what reads is told apart from what changes the pool: nothing that takes, destroys,
/// holds, releases, receives, gives up or notes counts as reading.
pub proof fn commands_that_change_the_pool_are_known(command: ZfsCommand)
    ensures
        command.mutates() <==> (command is CreateSnapshot || command is DestroySnapshot
            || command is Receive || command is AbortResume || command is SetResumeSince
            || command is ClearResumeSince || command is Hold || command is Release),
{
}

/// Nothing may be destroyed but a dataset's snapshot whose name starts with `zrb-` and has
/// no other `@`; so never a dataset.
pub proof fn only_snapshots_may_be_destroyed(name: Seq<char>)
    ensures
        may_destroy(name) <==> exists|dataset: Seq<char>, rest: Seq<char>|
            #![trigger dataset.push('@') + ("zrb-"@ + rest)]
            !dataset.contains('@') && !rest.contains('@') && name == dataset.push('@') + ("zrb-"@
                + rest),
{
    let prefix = "zrb-"@;
    reveal_strlit("zrb-");
    if may_destroy(name) {
        lemma_cut(name, '@');
        let (d, snap) = cut(name, '@')->0;
        let rest = snap.skip(prefix.len() as int);
        assert(snap =~= prefix + rest);
        assert forall|i: int| 0 <= i < rest.len() implies rest[i] != '@' by {
            assert(snap[i + prefix.len()] == rest[i]);
        }
        assert(name == d.push('@') + (prefix + rest));
    }
    if exists|dataset: Seq<char>, rest: Seq<char>|
        #![trigger dataset.push('@') + ("zrb-"@ + rest)]
        !dataset.contains('@') && !rest.contains('@') && name == dataset.push('@') + ("zrb-"@
            + rest) {
        let (dataset, rest) = choose|dataset: Seq<char>, rest: Seq<char>|
            #![trigger dataset.push('@') + ("zrb-"@ + rest)]
            !dataset.contains('@') && !rest.contains('@') && name == dataset.push('@') + ("zrb-"@
                + rest);
        let snap = prefix + rest;
        lemma_cut_join(dataset, '@', snap);
        assert(snap.subrange(0, prefix.len() as int) =~= prefix);
        assert forall|i: int| 0 <= i < snap.len() implies snap[i] != '@' by {
            if i >= 4 {
                assert(rest[i - 4] == snap[i]);
            } else {
                assert(prefix[i] == snap[i]);
            }
        }
    }
}

// ---------------------------------------------------------------------------
// Answers
// ---------------------------------------------------------------------------

proof fn lemma_trimmed_end_unique(t: Seq<char>, b: Seq<char>)
    requires
        t.len() > 0 ==> !is_space(t.last()),
        forall|i: int| 0 <= i < b.len() ==> is_space(#[trigger] b[i]),
    ensures
        trimmed_end(t + b) == t,
    decreases b.len(),
{
    if b.len() == 0 {
        assert(t + b =~= t);
    } else {
        assert((t + b).drop_last() =~= t + b.drop_last());
        assert((t + b).last() == b[b.len() - 1]);
        lemma_trimmed_end_unique(t, b.drop_last());
    }
}

/// What has whitespace around it and none at its own ends is what trimming leaves.
pub proof fn trimming_leaves_the_text(a: Seq<char>, t: Seq<char>, b: Seq<char>)
    requires
        t.len() > 0 ==> !is_space(t[0]) && !is_space(t.last()),
        forall|i: int| 0 <= i < a.len() ==> is_space(#[trigger] a[i]),
        forall|i: int| 0 <= i < b.len() ==> is_space(#[trigger] b[i]),
    ensures
        trimmed(a + t + b) == t,
    decreases a.len() + b.len(),
{
    let s = a + t + b;
    if a.len() > 0 {
        assert(s[0] == a[0]);
        assert(s.drop_first() =~= a.drop_first() + t + b);
        trimming_leaves_the_text(a.drop_first(), t, b);
    } else if t.len() == 0 && b.len() > 0 {
        assert(s[0] == b[0]);
        assert(s.drop_first() =~= a + t + b.drop_first());
        trimming_leaves_the_text(a, t, b.drop_first());
    } else {
        assert(s =~= t + b);
        lemma_trimmed_end_unique(t, b);
        if s.len() > 0 {
            assert(s[0] == t[0]);
        }
    }
}

/// A line of a list names what stands on it between whitespace; a line with nothing but
/// whitespace names nothing.
pub proof fn listed_names_stand_between_whitespace(a: Seq<char>, name: Seq<char>, b: Seq<char>)
    requires
        name.len() > 0 ==> !is_space(name[0]) && !is_space(name.last()),
        forall|i: int| 0 <= i < a.len() ==> is_space(#[trigger] a[i]),
        forall|i: int| 0 <= i < b.len() ==> is_space(#[trigger] b[i]),
    ensures
        listed_name()(a + name + b) == if name.len() == 0 {
            None::<Seq<char>>
        } else {
            Some(name)
        },
{
    trimming_leaves_the_text(a, name, b);
    reveal_strlit("");
    if name.len() == 0 {
        assert(name =~= Seq::<char>::empty());
    }
}

/// A line of the list of all snapshots makes its dataset known exactly where the snapshot's
/// name starts with `zrb-`.
pub proof fn datasets_are_known_by_their_snapshots(line: Seq<char>, dataset: Seq<char>)
    ensures
        managed_dataset()(line) == Some(dataset) <==> exists|rest: Seq<char>|
            !dataset.contains('@') && trimmed(line) == #[trigger] (dataset.push('@') + ("zrb-"@
                + rest)),
{
    let s = trimmed(line);
    let prefix = "zrb-"@;
    if managed_dataset()(line) == Some(dataset) {
        lemma_cut(s, '@');
        let (d, snap) = cut(s, '@')->0;
        let rest = snap.skip(prefix.len() as int);
        assert(snap =~= prefix + rest);
        assert(s == dataset.push('@') + (prefix + rest));
    }
    if exists|rest: Seq<char>|
        !dataset.contains('@') && s == #[trigger] (dataset.push('@') + ("zrb-"@ + rest)) {
        let rest = choose|rest: Seq<char>|
            !dataset.contains('@') && s == #[trigger] (dataset.push('@') + ("zrb-"@ + rest));
        let snap = prefix + rest;
        lemma_cut_join(dataset, '@', snap);
        assert(snap.subrange(0, prefix.len() as int) =~= prefix);
    }
}

/// Merging runs loses no dataset and adds none, and leaves no two neighbours alike.
pub proof fn merging_keeps_every_dataset(s: Seq<Seq<char>>, x: Seq<char>)
    ensures
        runs_merged(s).contains(x) <==> s.contains(x),
        forall|i: int|
            0 < i < runs_merged(s).len() ==> runs_merged(s)[i - 1] != #[trigger] runs_merged(s)[i],
        s.len() > 0 ==> runs_merged(s).len() > 0 && runs_merged(s).last() == s.last(),
    decreases s.len(),
{
    if s.len() > 1 {
        let rest = s.drop_last();
        let n = s.len() - 1;
        merging_keeps_every_dataset(rest, x);
        let before = runs_merged(rest);
        let after = runs_merged(s);
        assert(rest.last() == s[n - 1]);
        if s.contains(x) {
            let k = choose|k: int| 0 <= k < s.len() && s[k] == x;
            if k < n {
                assert(rest[k] == x);
                let m = choose|m: int| 0 <= m < before.len() && before[m] == x;
                assert(after[m] == x);
            } else {
                assert(after[after.len() - 1] == x);
            }
        }
        if after.contains(x) {
            let m = choose|m: int| 0 <= m < after.len() && after[m] == x;
            if m < before.len() {
                assert(before[m] == x);
                let k = choose|k: int| 0 <= k < rest.len() && rest[k] == x;
                assert(s[k] == x);
            } else {
                assert(s[n] == x);
            }
        }
        assert forall|i: int| 0 < i < after.len() implies after[i - 1] != #[trigger] after[i] by {
            if i < before.len() {
                assert(before[i - 1] != before[i]);
            }
        }
    } else if s.len() == 1 {
        assert(runs_merged(s) == s);
    }
}

/// A token is any value but `-` and `none`; it is that value.
pub proof fn tokens_are_values(value: Seq<char>)
    ensures
        value == "-"@ || value == "none"@ ==> token_of(value) is None,
        value != "-"@ && value != "none"@ ==> token_of(value) == Some(value),
{
}

/// A note is the instant that its value is read as; `-` is none.
pub proof fn notes_are_instants(value: Seq<char>)
    ensures
        value == "-"@ ==> since_of(value) is None,
        value != "-"@ ==> match (since_of(value), rfc3339_instant(value)) {
            (Some(t), Some((secs, nanos))) => t.secs == secs && t.nanos == nanos,
            (None, None) => true,
            _ => false,
        },
{
}

/// A dataset is not there exactly where the command failed and printed so, with whatever
/// around it.
pub proof fn absence_is_what_the_command_printed(e: ClientError)
    ensures
        says_not_found(e) <==> match e {
            ClientError::CommandFailed { stderr } => exists|a: Seq<char>, b: Seq<char>|
                #![trigger a + "dataset does not exist"@ + b]
                stderr@ == a + "dataset does not exist"@ + b,
            _ => false,
        },
{
    if let ClientError::CommandFailed { stderr } = e {
        held_text_has_surroundings(stderr@, "dataset does not exist"@);
    }
}

// ---------------------------------------------------------------------------
// Lists
// ---------------------------------------------------------------------------

/// A dataset belongs to a root exactly where it is the root or has it and a `/` in front.
pub proof fn subtrees_stand_below_their_root(root: Seq<char>, ds: Seq<char>)
    ensures
        in_subtree(root)(ds) <==> ds == root || exists|rest: Seq<char>|
            ds == #[trigger] (root.push('/') + rest),
{
    reveal_strlit("/");
    let p = root + "/"@;
    assert(p =~= root.push('/'));
    prefix_stands_in_front(ds, p);
    if has_prefix(ds, p) {
        let rest = choose|rest: Seq<char>| ds == #[trigger] (p + rest);
        assert(ds == root.push('/') + rest);
    }
    if exists|rest: Seq<char>| ds == #[trigger] (root.push('/') + rest) {
        let rest = choose|rest: Seq<char>| ds == #[trigger] (root.push('/') + rest);
        assert(ds == p + rest);
    }
}

/// Each dataset has its own group, in order, with the managed ones of its own names.
pub proof fn every_dataset_has_its_group(
    datasets: Seq<Seq<char>>,
    raw: Seq<Seq<Seq<char>>>,
    i: int,
)
    requires
        datasets.len() == raw.len(),
        0 <= i < datasets.len(),
    ensures
        groups_of(datasets, raw).len() == datasets.len(),
        groups_of(datasets, raw)[i] == (datasets[i], listing(raw[i])),
{
}

// ---------------------------------------------------------------------------
// Holds
// ---------------------------------------------------------------------------

/// What is found under a tag is what the lines of the answer put under it.
pub proof fn found_stand_on_lines(lines: Seq<Seq<char>>, tag: Seq<char>, name: Seq<char>)
    ensures
        lines.filter_map(held_under(tag)).contains(name) <==> says_held(lines, name, tag),
{
    lemma_held_lines(lines, tag, name);
}

/// The tags in an answer are the second fields of its lines.
pub proof fn tags_are_second_fields(line: Seq<char>, tag: Seq<char>)
    ensures
        hold_tag()(line) == Some(tag) <==> exists|name: Seq<char>|
            two_fields(line) == Some((name, tag)) && #[trigger] name.len() >= 0,
{
    if let Some((name, t)) = two_fields(line) {
        assert(name.len() >= 0);
    }
}

// ---------------------------------------------------------------------------
// Estimates
// ---------------------------------------------------------------------------

/// The size that an output gives stands behind `estimated size is ` on the first line that
/// holds these words, without whitespace around it.
pub proof fn sizes_stand_behind_the_words(output: Seq<char>, i: int, a: Seq<char>, v: Seq<char>)
    requires
        0 <= i < lines_of(output).len(),
        forall|j: int|
            0 <= j < i ==> !occurs(#[trigger] lines_of(output)[j], "estimated size is"@),
        lines_of(output)[i] == a + "estimated size is "@ + v,
        forall|j: int|
            0 <= j && j != a.len() ==> !#[trigger] occurs_at(
                a + "estimated size is "@ + v,
                "estimated size is "@,
                j,
            ),
    ensures
        size_text(output) == Some(trimmed(v)),
{
    let all = lines_of(output);
    let words = "estimated size is"@;
    let mark = "estimated size is "@;
    let line = a + mark + v;
    reveal_strlit("estimated size is");
    reveal_strlit("estimated size is ");
    let n = a.len() as int;
    let m = mark.len() as int;
    assert(line.subrange(n, n + m) =~= mark);
    assert(occurs_at(line, mark, n));
    assert(line.subrange(n, n + words.len()) =~= words);
    assert(occurs_at(line, words, n));
    lemma_first_with(all, words, i);
    lemma_find_from(line, mark, 0);
    let k = find_from(line, mark, 0)->0;
    if k != n {
        assert(occurs_at(line, mark, k));
    }
    lemma_find_from(line, mark, n + m);
    if find_from(line, mark, n + m) is Some {
        let j = find_from(line, mark, n + m)->0;
        assert(occurs_at(line, mark, j));
    }
    assert(line.skip(n + m) =~= v);
}

proof fn lemma_first_with(all: Seq<Seq<char>>, needle: Seq<char>, i: int)
    requires
        0 <= i < all.len(),
        occurs(all[i], needle),
        forall|j: int| 0 <= j < i ==> !occurs(#[trigger] all[j], needle),
    ensures
        first_with(all, needle) == Some(all[i]),
    decreases i,
{
    if i > 0 {
        let rest = all.drop_first();
        assert(!occurs(all[0], needle));
        assert forall|j: int| 0 <= j < i - 1 implies !occurs(#[trigger] rest[j], needle) by {
            assert(rest[j] == all[j + 1]);
        }
        assert(rest[i - 1] == all[i]);
        lemma_first_with(rest, needle, i - 1);
    }
}

/// An output in which no line holds the words gives no size.
pub proof fn no_words_no_size(output: Seq<char>)
    requires
        forall|j: int|
            0 <= j < lines_of(output).len() ==> !occurs(
                #[trigger] lines_of(output)[j],
                "estimated size is"@,
            ),
    ensures
        size_text(output) is None,
{
    lemma_none_with(lines_of(output), "estimated size is"@);
}

proof fn lemma_none_with(all: Seq<Seq<char>>, needle: Seq<char>)
    requires
        forall|j: int| 0 <= j < all.len() ==> !occurs(#[trigger] all[j], needle),
    ensures
        first_with(all, needle) is None,
    decreases all.len(),
{
    if all.len() > 0 {
        let rest = all.drop_first();
        assert(!occurs(all[0], needle));
        assert forall|j: int| 0 <= j < rest.len() implies !occurs(#[trigger] rest[j], needle) by {
            assert(rest[j] == all[j + 1]);
        }
        lemma_none_with(rest, needle);
    }
}

/// Each unit of a size is 1024 of the one below it, with and without a `B` behind it.
pub proof fn units_are_powers_of_1024()
    ensures
        unit_size(seq!['B']) == Some(1int),
        unit_size(seq![]) == Some(1int),
        unit_size(seq!['K']) == Some(1_024int),
        unit_size(seq!['M']) == Some(1_024 * 1_024int),
        unit_size(seq!['G']) == Some(1_024 * 1_024 * 1_024int),
        unit_size(seq!['T']) == Some(1_024 * 1_024 * 1_024 * 1_024int),
        unit_size(seq!['K', 'B']) == unit_size(seq!['K']),
        unit_size(seq!['M', 'B']) == unit_size(seq!['M']),
        unit_size(seq!['G', 'B']) == unit_size(seq!['G']),
        unit_size(seq!['T', 'B']) == unit_size(seq!['T']),
        forall|u: Seq<char>| u.len() > 2 ==> (#[trigger] unit_size(u)) is None,
{
    reveal_strlit("");
    reveal_strlit("B");
    reveal_strlit("K");
    reveal_strlit("KB");
    reveal_strlit("M");
    reveal_strlit("MB");
    reveal_strlit("G");
    reveal_strlit("GB");
    reveal_strlit("T");
    reveal_strlit("TB");
    assert(""@ =~= Seq::<char>::empty());
    assert("B"@ =~= seq!['B']);
    assert("K"@ =~= seq!['K']);
    assert("M"@ =~= seq!['M']);
    assert("G"@ =~= seq!['G']);
    assert("T"@ =~= seq!['T']);
    assert("KB"@ =~= seq!['K', 'B']);
    assert("MB"@ =~= seq!['M', 'B']);
    assert("GB"@ =~= seq!['G', 'B']);
    assert("TB"@ =~= seq!['T', 'B']);
    assert(seq!['K'][0] != seq!['B'][0]);
    assert(seq!['M'][0] != seq!['B'][0] && seq!['M'][0] != seq!['K'][0]);
    assert(seq!['G'][0] != seq!['B'][0] && seq!['G'][0] != seq!['K'][0] && seq!['G'][0]
        != seq!['M'][0]);
    assert(seq!['T'][0] != seq!['B'][0] && seq!['T'][0] != seq!['K'][0] && seq!['T'][0]
        != seq!['M'][0] && seq!['T'][0] != seq!['G'][0]);
    assert(seq!['M', 'B'][0] != seq!['K', 'B'][0]);
    assert(seq!['G', 'B'][0] != seq!['K', 'B'][0] && seq!['G', 'B'][0] != seq!['M', 'B'][0]);
    assert(seq!['T', 'B'][0] != seq!['K', 'B'][0] && seq!['T', 'B'][0] != seq!['M', 'B'][0]
        && seq!['T', 'B'][0] != seq!['G', 'B'][0]);
}

/// A dataset is discovered exactly where a line of the listing names a snapshot of it that
/// starts with `zrb-`.
pub proof fn datasets_with_managed_snapshots_are_discovered(output: Seq<char>, dataset: Seq<char>)
    ensures
        discovered_in(output).contains(dataset) <==> !dataset.contains('@') && exists|
            i: int,
            rest: Seq<char>,
        |
            0 <= i < lines_of(output).len() && trimmed(#[trigger] lines_of(output)[i])
                == #[trigger] (dataset.push('@') + ("zrb-"@ + rest)),
{
    let all = lines_of(output);
    merging_keeps_every_dataset(all.filter_map(managed_dataset()), dataset);
    lemma_mapped(all, dataset);
    if discovered_in(output).contains(dataset) {
        let i = choose|i: int|
            0 <= i < all.len() && managed_dataset()(#[trigger] all[i]) == Some(dataset);
        datasets_are_known_by_their_snapshots(all[i], dataset);
        let rest = choose|rest: Seq<char>|
            !dataset.contains('@') && trimmed(all[i]) == #[trigger] (dataset.push('@') + ("zrb-"@
                + rest));
        assert(trimmed(all[i]) == dataset.push('@') + ("zrb-"@ + rest));
    }
    if !dataset.contains('@') && exists|i: int, rest: Seq<char>|
        0 <= i < all.len() && trimmed(#[trigger] all[i]) == #[trigger] (dataset.push('@') + (
        "zrb-"@ + rest)) {
        let (i, rest) = choose|i: int, rest: Seq<char>|
            0 <= i < all.len() && trimmed(#[trigger] all[i]) == #[trigger] (dataset.push('@') + (
            "zrb-"@ + rest));
        datasets_are_known_by_their_snapshots(all[i], dataset);
        assert(managed_dataset()(all[i]) == Some(dataset));
    }
}

proof fn lemma_mapped(all: Seq<Seq<char>>, x: Seq<char>)
    ensures
        all.filter_map(managed_dataset()).contains(x) <==> exists|i: int|
            0 <= i < all.len() && managed_dataset()(#[trigger] all[i]) == Some(x),
    decreases all.len(),
{
    let f = managed_dataset();
    let n = all.len() as int;
    if n > 0 {
        let rest = all.drop_last();
        lemma_mapped(rest, x);
        lemma_take_filter_map(all, n - 1, f);
        assert(all.take(n) =~= all);
        assert(all.take(n - 1) =~= rest);
        let before = rest.filter_map(f);
        let after = all.filter_map(f);
        if after.contains(x) {
            let k = choose|k: int| 0 <= k < after.len() && after[k] == x;
            if k < before.len() {
                assert(before[k] == x);
                let i = choose|i: int| 0 <= i < rest.len() && f(#[trigger] rest[i]) == Some(x);
                assert(f(all[i]) == Some(x));
            } else {
                assert(f(all[n - 1]) == Some(x));
            }
        }
        if exists|i: int| 0 <= i < n && f(#[trigger] all[i]) == Some(x) {
            let i = choose|i: int| 0 <= i < n && f(#[trigger] all[i]) == Some(x);
            if i < n - 1 {
                assert(f(rest[i]) == Some(x));
                let k = choose|k: int| 0 <= k < before.len() && before[k] == x;
                assert(after[k] == x);
            } else {
                assert(after[before.len() as int] == x);
            }
        }
    }
}

/// A snapshot is taken of the dataset that was named, under the name that is given back:
/// that dataset, `@zrb-`, and the time it is.
pub proof fn snapshots_are_taken_under_their_name(
    dataset: Seq<char>,
    now: Timestamp,
    full: Seq<char>,
    command: ZfsCommand,
)
    requires
        takes(dataset, now, full, command),
        !dataset.contains('@'),
    ensures
        full == dataset.push('@') + ("zrb-"@ + formatted_instant(
            now.secs,
            now.nanos,
            TIMESTAMP_FMT@,
        )),
        command.arg_texts() == seq!["snapshot"@, full],
{
    new_names_say_dataset_and_time(dataset, now);
    let name = "zrb-"@ + formatted_instant(now.secs, now.nanos, TIMESTAMP_FMT@);
    lemma_cut_join(dataset, '@', name);
    if let ZfsCommand::CreateSnapshot { dataset: d, name: n } = command {
        reveal_strlit("@");
        assert(d@ + "@"@ + n@ =~= full);
    }
}

/// Of what is found the first is given, and nothing where nothing is found; an error is
/// handed on.
pub proof fn the_first_found_is_given(
    all: Result<Vec<String>, ClientError>,
    first: Result<Option<String>, ClientError>,
)
    requires
        first_of(all, first),
    ensures
        all is Err ==> first is Err && first->Err_0 == all->Err_0,
        all is Ok && all->Ok_0@.len() == 0 ==> first == Ok::<Option<String>, ClientError>(None),
        all is Ok && all->Ok_0@.len() > 0 ==> first is Ok && first->Ok_0 == Some(all->Ok_0@[0]),
{
}

/// Among snapshots that are given, those are found on which a line of the answer puts the
/// tag; without snapshots nothing is asked and nothing found.
pub proof fn given_snapshots_are_searched(
    snapshots: Seq<String>,
    tag: Seq<char>,
    holds: Result<String, ClientError>,
    held: Result<Vec<String>, ClientError>,
    name: Seq<char>,
)
    requires
        held_among(snapshots, tag, holds, held),
    ensures
        snapshots.len() == 0 ==> held is Ok && held->Ok_0@.len() == 0,
        snapshots.len() > 0 && holds is Err ==> held is Err && held->Err_0 == holds->Err_0,
        snapshots.len() > 0 && holds is Ok ==> held is Ok && (texts(held->Ok_0@).contains(name)
            <==> says_held(lines_of(holds->Ok_0@), name, tag)),
{
    if let Ok(output) = holds {
        found_stand_on_lines(lines_of(output@), tag, name);
    }
}

/// Errors hold what was printed, or what kept the command from running.
pub proof fn errors_hold_what_was_printed(
    e: ClientError,
    c: ConfigError,
    w: CodecError,
    t: TransportError,
)
    ensures
        match e {
            ClientError::Spawn(m) => occurs(e.text(), m@),
            ClientError::CommandFailed { stderr } => occurs(e.text(), stderr@),
            ClientError::JsonParse(m) => occurs(e.text(), m@),
        },
        match c {
            ConfigError::Io(m) => occurs(c.text(), m@),
            ConfigError::Toml(m) => occurs(c.text(), m@),
        },
        match w {
            CodecError::Io(m) => occurs(w.text(), m@),
            CodecError::Json(m) => occurs(w.text(), m@),
            CodecError::Cancelled => true,
        },
        match t {
            TransportError::Spawn { destination, source } => occurs(t.text(), destination@)
                && occurs(t.text(), source@),
        },
{
    match e {
        ClientError::Spawn(m) => lemma_tail(e.text(), m@),
        ClientError::CommandFailed { stderr } => lemma_tail(e.text(), stderr@),
        ClientError::JsonParse(m) => lemma_tail(e.text(), m@),
    }
    match c {
        ConfigError::Io(m) => lemma_tail(c.text(), m@),
        ConfigError::Toml(m) => lemma_tail(c.text(), m@),
    }
    match w {
        CodecError::Io(m) => lemma_tail(w.text(), m@),
        CodecError::Json(m) => lemma_tail(w.text(), m@),
        CodecError::Cancelled => {},
    }
    match t {
        TransportError::Spawn { destination, source } => {
            lemma_tail(t.text(), source@);
            let n = "SSH connect to "@.len() as int;
            assert(t.text().subrange(n, n + destination@.len()) =~= destination@);
            assert(occurs_at(t.text(), destination@, n));
        },
    }
}

proof fn lemma_tail(s: Seq<char>, m: Seq<char>)
    requires
        m.len() <= s.len(),
        s.skip(s.len() - m.len()) =~= m,
    ensures
        occurs(s, m),
{
    let n = s.len() - m.len();
    assert(s.subrange(n, n + m.len()) =~= s.skip(n));
    assert(occurs_at(s, m, n));
}

} // verus!
