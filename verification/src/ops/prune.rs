//! Pruning: what goes, what stays, and what keeps it from going.

use crate::ops::list::{list, listing};
use crate::retention::policy::{
    apply, kept_texts, lemma_deleted, policy_deletes, policy_keeps, KeepReason, RetentionConfig,
};
use crate::snapshot::naming::{
    has_single_at, in_time_order, stamp, time_order_is_a_stable_sort,
};
use crate::text::{
    copy_list, find_entry, has_prefix, lemma_texts_push, lines_of, starts_with, texts, trimmed,
};
use crate::time::{days_have_passed, nanos_between, Timestamp};
use crate::zfs::client::{
    batch_snapshot_holds, completed, destroy_snapshot, get_resume_since, get_resume_token,
    held_tags, list_snapshots, listed_name, may_destroy, says_not_found, since_of, tags_for,
    token_of, ClientError, HoldsTable, ZfsCommand,
};
use vstd::prelude::*;
use vstd::string::*;

verus! {

/// What pruning a dataset came to.
#[derive(Debug)]
pub struct PruneResult {
    /// What the policy keeps, and why.
    pub kept: Vec<(String, KeepReason)>,
    /// What was destroyed, or would be.
    pub deleted: Vec<String>,
    /// Whether nothing was done because an interrupted transfer may go on.
    pub resume_skipped: bool,
    /// What a transfer hold protects, with the hold; once for each hold.
    pub hold_skipped: Vec<(String, String)>,
}

// ---------------------------------------------------------------------------
// Interrupted transfers
// ---------------------------------------------------------------------------

/// What becomes of an interrupted transfer.
#[derive(Clone, Copy, Debug, PartialEq, Eq, Structural)]
pub enum ResumeDecision {
    /// There is none.
    Idle,
    /// It may go on: nothing is pruned.
    Wait,
    /// It waited long enough and is given up.
    Expire,
}

/// What becomes of an interrupted transfer. Without a note since when it waits, it
/// waits on. Without a period it is given up at once.
pub open spec fn decision_for(
    has_token: bool,
    since: Option<Timestamp>,
    now: Timestamp,
    hold_days: Option<u32>,
) -> ResumeDecision {
    if !has_token {
        ResumeDecision::Idle
    } else {
        match (since, hold_days) {
            (None, _) => ResumeDecision::Wait,
            (Some(_), None) => ResumeDecision::Expire,
            (Some(t), Some(days)) => if nanos_between(now, t) >= days * 86_400_000_000_000 {
                ResumeDecision::Expire
            } else {
                ResumeDecision::Wait
            },
        }
    }
}

/// What becomes of an interrupted transfer.
pub fn resume_decision(
    has_token: bool,
    since: Option<Timestamp>,
    now: Timestamp,
    hold_days: Option<u32>,
) -> (r: ResumeDecision)
    requires
        now.valid(),
        since is Some ==> since->0.valid(),
    ensures
        r == decision_for(has_token, since, now, hold_days),
        r == ResumeDecision::Idle <==> !has_token,
        has_token && since is None ==> r == ResumeDecision::Wait,
        has_token && since is Some && hold_days is None ==> r == ResumeDecision::Expire,
        has_token && since is Some && hold_days is Some ==> (r == ResumeDecision::Expire
            <==> nanos_between(now, since->0) >= hold_days->0 * 86_400_000_000_000),
{
    if !has_token {
        return ResumeDecision::Idle;
    }
    match since {
        None => ResumeDecision::Wait,
        Some(t) => match hold_days {
            None => ResumeDecision::Expire,
            Some(days) => if days_have_passed(now, t, days) {
                ResumeDecision::Expire
            } else {
                ResumeDecision::Wait
            },
        },
    }
}

// ---------------------------------------------------------------------------
// Holds
// ---------------------------------------------------------------------------

/// The predicate that picks transfer holds.
pub open spec fn is_transfer_hold() -> spec_fn(Seq<char>) -> bool {
    |tag: Seq<char>| has_prefix(tag, "zrb:"@)
}

/// The transfer holds among `holds`.
pub fn zrb_holds_from_tags(holds: &[String]) -> (r: Vec<String>)
    ensures
        texts(r@) == texts(holds@).filter(is_transfer_hold()),
{
    let mut out: Vec<String> = Vec::new();
    let mut i: usize = 0;
    let ghost f = is_transfer_hold();
    let ghost all = texts(holds@);
    proof {
        reveal(Seq::filter);
        assert(all.take(0) =~= seq![]);
        assert(texts(out@) =~= all.take(0).filter(f));
    }
    while i < holds.len()
        invariant
            i <= holds@.len(),
            all == texts(holds@),
            f == is_transfer_hold(),
            texts(out@) == all.take(i as int).filter(f),
        decreases holds@.len() - i,
    {
        let tag = &holds[i];
        proof {
            reveal(Seq::filter);
            assert(all.take(i + 1).drop_last() =~= all.take(i as int));
            assert(all.take(i + 1).last() == tag@);
            lemma_texts_push(out@, *tag);
        }
        if starts_with(tag.as_str(), "zrb:") {
            out.push(tag.clone());
        }
        i = i + 1;
    }
    assert(all.take(all.len() as int) =~= all);
    out
}

/// The transfer holds that a table gives for a snapshot.
pub open spec fn transfer_holds(table: Seq<(String, Vec<String>)>, name: Seq<char>) -> Seq<
    Seq<char>,
> {
    held_tags(table, name).filter(is_transfer_hold())
}

/// The predicate that picks snapshots without a transfer hold.
pub open spec fn unprotected(table: Seq<(String, Vec<String>)>) -> spec_fn(Seq<char>) -> bool {
    |name: Seq<char>| transfer_holds(table, name).len() == 0
}

/// A snapshot with each of its tags.
pub open spec fn with_each(name: Seq<char>, tags: Seq<Seq<char>>) -> Seq<(Seq<char>, Seq<char>)> {
    tags.map_values(|tag: Seq<char>| (name, tag))
}

/// The protected ones of `candidates`, with each of their transfer holds.
pub open spec fn protected_of(
    candidates: Seq<Seq<char>>,
    table: Seq<(String, Vec<String>)>,
) -> Seq<(Seq<char>, Seq<char>)>
    decreases candidates.len(),
{
    if candidates.len() == 0 {
        seq![]
    } else {
        protected_of(candidates.drop_last(), table) + with_each(
            candidates.last(),
            transfer_holds(table, candidates.last()),
        )
    }
}

/// The texts of a list of pairs.
pub open spec fn pair_texts(v: Seq<(String, String)>) -> Seq<(Seq<char>, Seq<char>)> {
    v.map_values(|e: (String, String)| (e.0@, e.1@))
}

/// Parts `candidates` into those to delete and those that a transfer hold protects,
/// the latter with each of their transfer holds.
pub fn classify_candidates(candidates: Vec<String>, holds_map: &HoldsTable) -> (r: (
    Vec<String>,
    Vec<(String, String)>,
))
    ensures
        texts(r.0@) == texts(candidates@).filter(unprotected(holds_map@)),
        pair_texts(r.1@) == protected_of(texts(candidates@), holds_map@),
{
    let mut to_delete: Vec<String> = Vec::new();
    let mut hold_skipped: Vec<(String, String)> = Vec::new();
    let mut i: usize = 0;
    let ghost all = texts(candidates@);
    let ghost f = unprotected(holds_map@);
    proof {
        reveal(Seq::filter);
        assert(all.take(0) =~= seq![]);
        assert(texts(to_delete@) =~= all.take(0).filter(f));
        assert(pair_texts(hold_skipped@) =~= protected_of(all.take(0), holds_map@));
    }
    while i < candidates.len()
        invariant
            i <= candidates@.len(),
            all == texts(candidates@),
            f == unprotected(holds_map@),
            texts(to_delete@) == all.take(i as int).filter(f),
            pair_texts(hold_skipped@) == protected_of(all.take(i as int), holds_map@),
        decreases candidates@.len() - i,
    {
        let name = &candidates[i];
        let tags = match find_entry(holds_map, name.as_str()) {
            Some(tags) => zrb_holds_from_tags(tags.as_slice()),
            None => {
                let none: Vec<String> = Vec::new();
                proof {
                    reveal(Seq::filter);
                    assert(texts(none@) =~= Seq::<Seq<char>>::empty().filter(is_transfer_hold()));
                }
                none
            },
        };
        assert(texts(tags@) == transfer_holds(holds_map@, name@));
        let ghost skipped0 = pair_texts(hold_skipped@);
        proof {
            reveal(Seq::filter);
            assert(all.take(i + 1).drop_last() =~= all.take(i as int));
            assert(all.take(i + 1).last() == name@);
            lemma_texts_push(to_delete@, *name);
        }
        if tags.len() == 0 {
            to_delete.push(name.clone());
            assert(with_each(name@, texts(tags@)) =~= seq![]);
            assert(skipped0 + with_each(name@, texts(tags@)) =~= skipped0);
        } else {
            let mut j: usize = 0;
            assert(skipped0 + with_each(name@, texts(tags@)).take(0) =~= skipped0);
            while j < tags.len()
                invariant
                    j <= tags@.len(),
                    pair_texts(hold_skipped@) == skipped0 + with_each(name@, texts(tags@)).take(
                        j as int,
                    ),
                decreases tags@.len() - j,
            {
                let ghost before = hold_skipped@;
                hold_skipped.push((name.clone(), tags[j].clone()));
                proof {
                    let each = with_each(name@, texts(tags@));
                    assert(each[j as int] == (name@, tags@[j as int]@));
                    assert(each.take(j + 1) =~= each.take(j as int).push(each[j as int]));
                    assert(pair_texts(hold_skipped@) =~= pair_texts(before).push(
                        each[j as int],
                    ));
                    assert(pair_texts(hold_skipped@) =~= skipped0 + each.take(j + 1));
                }
                j = j + 1;
            }
            assert(with_each(name@, texts(tags@)).take(tags@.len() as int) =~= with_each(
                name@,
                texts(tags@),
            ));
        }
        i = i + 1;
    }
    assert(all.take(all.len() as int) =~= all);
    (to_delete, hold_skipped)
}

/// What is to be deleted is a candidate that no transfer hold protects.
pub proof fn deleted_are_unprotected(
    candidates: Seq<Seq<char>>,
    table: Seq<(String, Vec<String>)>,
    i: int,
)
    requires
        0 <= i < candidates.filter(unprotected(table)).len(),
    ensures
        transfer_holds(table, candidates.filter(unprotected(table))[i]).len() == 0,
        candidates.contains(candidates.filter(unprotected(table))[i]),
{
    candidates.lemma_filter_pred(unprotected(table), i);
    let name = candidates.filter(unprotected(table))[i];
    assert(unprotected(table)(name));
    assert(candidates.filter(unprotected(table)).contains(name));
    candidates.lemma_filter_contains_rev(unprotected(table), name);
}

/// Each candidate is either to be deleted or listed with a hold that protects it.
pub proof fn candidates_are_accounted_for(
    candidates: Seq<Seq<char>>,
    table: Seq<(String, Vec<String>)>,
    i: int,
)
    requires
        0 <= i < candidates.len(),
    ensures
        candidates.filter(unprotected(table)).contains(candidates[i]) || exists|k: int|
            0 <= k < protected_of(candidates, table).len() && (#[trigger] protected_of(
                candidates,
                table,
            )[k]).0 == candidates[i],
    decreases candidates.len(),
{
    let name = candidates[i];
    if unprotected(table)(name) {
        candidates.lemma_filter_contains(unprotected(table), i);
    } else {
        let rest = candidates.drop_last();
        let all = protected_of(candidates, table);
        let before = protected_of(rest, table);
        if i < rest.len() {
            candidates_are_accounted_for(rest, table, i);
            assert(rest[i] == name);
            if rest.filter(unprotected(table)).contains(name) {
                rest.lemma_filter_contains_rev(unprotected(table), name);
                let f = rest.filter(unprotected(table));
                let k = choose|k: int| 0 <= k < f.len() && f[k] == name;
                rest.lemma_filter_pred(unprotected(table), k);
            }
            let k = choose|k: int|
                0 <= k < before.len() && (#[trigger] before[k]).0 == name;
            assert(all[k] == before[k]);
        } else {
            assert(all[before.len() as int].0 == name);
        }
    }
}

// ---------------------------------------------------------------------------
// Pruning a dataset
// ---------------------------------------------------------------------------

/// Where pruning stands: which command was run last.
#[derive(Debug)]
pub enum PruneState {
    /// The token of an interrupted transfer was asked for.
    AwaitToken,
    /// The note since when it waits was asked for.
    AwaitSince { has_token: bool },
    /// The interrupted transfer is being given up.
    AwaitAbort,
    /// The note is being dropped.
    AwaitClear,
    /// The snapshots were asked for.
    AwaitList,
    /// The holds on the candidates were asked for.
    AwaitHolds { kept: Vec<(String, KeepReason)>, candidates: Vec<String> },
    /// The `done`-th of `doomed` is being destroyed.
    Destroying {
        kept: Vec<(String, KeepReason)>,
        hold_skipped: Vec<(String, String)>,
        doomed: Vec<String>,
        done: usize,
    },
    /// Pruning is over.
    Finished,
}

/// What to do.
#[derive(Debug)]
pub enum PruneAction {
    /// Run the command and hand in its answer.
    Run(ZfsCommand),
    /// Pruning is over.
    Done(Result<PruneResult, ClientError>),
}

/// What to prune and how.
#[derive(Debug)]
pub struct Prune {
    pub dataset: String,
    pub config: RetentionConfig,
    /// Days for which an interrupted transfer is kept.
    pub hold_days: Option<u32>,
    /// Whether nothing is to be changed.
    pub dry_run: bool,
    /// Whether an interrupted transfer is to be given up in any case.
    pub abort_resume: bool,
}

/// Whether a snapshot may be destroyed without harm to what pruning must keep: it is
/// a managed one.
pub open spec fn all_destroyable(names: Seq<String>) -> bool {
    forall|i: int| 0 <= i < names.len() ==> may_destroy((#[trigger] names[i])@)
}

impl PruneState {
    /// Whether the candidates are managed snapshots, and a dry run has changed
    /// nothing.
    pub open spec fn valid(self, dry_run: bool) -> bool {
        match self {
            PruneState::AwaitAbort => !dry_run,
            PruneState::AwaitClear => !dry_run,
            PruneState::AwaitHolds { candidates, .. } => all_destroyable(candidates@)
                && candidates@.len() > 0,
            PruneState::Destroying { doomed, done, .. } => !dry_run && all_destroyable(doomed@)
                && done < doomed@.len(),
            _ => true,
        }
    }
}

/// Whether pruning ends with this result.
pub open spec fn ends_with(
    next: PruneState,
    action: PruneAction,
    kept: Seq<(Seq<char>, KeepReason)>,
    deleted: Seq<Seq<char>>,
    resume_skipped: bool,
    hold_skipped: Seq<(Seq<char>, Seq<char>)>,
) -> bool {
    &&& next is Finished
    &&& match action {
        PruneAction::Done(Ok(r)) => {
            &&& kept_texts(r.kept@) == kept
            &&& texts(r.deleted@) == deleted
            &&& r.resume_skipped == resume_skipped
            &&& pair_texts(r.hold_skipped@) == hold_skipped
        },
        _ => false,
    }
}

/// Whether pruning ends with this error.
pub open spec fn fails_with(next: PruneState, action: PruneAction, e: ClientError) -> bool {
    &&& next is Finished
    &&& match action {
        PruneAction::Done(Err(err)) => err == e,
        _ => false,
    }
}

/// What becomes of an interrupted transfer, with the order to give it up.
pub open spec fn final_decision(
    prune: Prune,
    has_token: bool,
    since: Option<Timestamp>,
    now: Timestamp,
) -> ResumeDecision {
    let decision = decision_for(has_token, since, now, prune.hold_days);
    if prune.abort_resume && decision == ResumeDecision::Wait {
        ResumeDecision::Expire
    } else {
        decision
    }
}

/// The note since when an interrupted transfer waits, as an answer gives it; nothing
/// where the answer is an error other than that the dataset is not there.
pub open spec fn since_in(reply: Result<String, ClientError>) -> Option<Option<Timestamp>> {
    match reply {
        Ok(output) => Some(since_of(trimmed(output@))),
        Err(e) => if says_not_found(e) {
            Some(None)
        } else {
            None
        },
    }
}

/// Whether there is an interrupted transfer, as an answer gives it.
pub open spec fn token_in(reply: Result<String, ClientError>) -> Option<bool> {
    match reply {
        Ok(output) => Some(token_of(trimmed(output@)) is Some),
        Err(e) => if says_not_found(e) {
            Some(false)
        } else {
            None
        },
    }
}

/// The managed snapshots, oldest first, as an answer gives them.
pub open spec fn snapshots_in(reply: Result<String, ClientError>) -> Option<Seq<Seq<char>>> {
    match reply {
        Ok(output) => Some(listing(lines_of(output@).filter_map(listed_name()))),
        Err(e) => if says_not_found(e) {
            Some(listing(seq![]))
        } else {
            None
        },
    }
}

/// The predicate that picks snapshots without a transfer hold, by the lines of a
/// list of holds.
pub open spec fn without_holds(holds: Seq<Seq<char>>) -> spec_fn(Seq<char>) -> bool {
    |name: Seq<char>| tags_for(holds, name).filter(is_transfer_hold()).len() == 0
}

/// The protected ones of `candidates`, with each of their transfer holds, by the
/// lines of a list of holds.
pub open spec fn held_back(candidates: Seq<Seq<char>>, holds: Seq<Seq<char>>) -> Seq<
    (Seq<char>, Seq<char>),
>
    decreases candidates.len(),
{
    if candidates.len() == 0 {
        seq![]
    } else {
        held_back(candidates.drop_last(), holds) + with_each(
            candidates.last(),
            tags_for(holds, candidates.last()).filter(is_transfer_hold()),
        )
    }
}

/// Whether `next` and `action` follow once it is known what to destroy: in a dry run,
/// or where there is nothing to destroy, pruning is over; else the first goes.
pub open spec fn starts_destroying(
    prune: Prune,
    kept: Seq<(Seq<char>, KeepReason)>,
    doomed: Seq<Seq<char>>,
    hold_skipped: Seq<(Seq<char>, Seq<char>)>,
    next: PruneState,
    action: PruneAction,
) -> bool {
    if prune.dry_run || doomed.len() == 0 {
        ends_with(next, action, kept, doomed, false, hold_skipped)
    } else {
        &&& match next {
            PruneState::Destroying { kept: k, hold_skipped: h, doomed: d, done } => kept_texts(k@)
                == kept && pair_texts(h@) == hold_skipped && texts(d@) == doomed && done == 0,
            _ => false,
        }
        &&& destroys(action, doomed[0])
    }
}

/// Whether `action` is to destroy `name`.
pub open spec fn destroys(action: PruneAction, name: Seq<char>) -> bool {
    match action {
        PruneAction::Run(ZfsCommand::DestroySnapshot { snapshot }) => snapshot@ == name,
        _ => false,
    }
}

/// Whether `next` and `action` are what the answer to the last command leads to.
pub open spec fn prune_step(
    prune: Prune,
    state: PruneState,
    reply: Result<String, ClientError>,
    now: Timestamp,
    next: PruneState,
    action: PruneAction,
) -> bool {
    let dataset = prune.dataset@;
    match state {
        PruneState::AwaitToken => match token_in(reply) {
            None => fails_with(next, action, reply->Err_0),
            Some(has_token) => {
                &&& next == (PruneState::AwaitSince { has_token })
                &&& match action {
                    PruneAction::Run(ZfsCommand::GetResumeSince { dataset: d }) => d@ == dataset,
                    _ => false,
                }
            },
        },
        PruneState::AwaitSince { has_token } => match since_in(reply) {
            None => fails_with(next, action, reply->Err_0),
            Some(since) => match final_decision(prune, has_token, since, now) {
                ResumeDecision::Wait => ends_with(next, action, seq![], seq![], true, seq![]),
                ResumeDecision::Idle => if since is Some && !prune.dry_run {
                    next is AwaitClear && clears(action, dataset)
                } else {
                    next is AwaitList && lists(action, dataset)
                },
                ResumeDecision::Expire => if !prune.dry_run {
                    &&& next is AwaitAbort
                    &&& match action {
                        PruneAction::Run(ZfsCommand::AbortResume { dataset: d }) => d@ == dataset,
                        _ => false,
                    }
                } else {
                    next is AwaitList && lists(action, dataset)
                },
            },
        },
        PruneState::AwaitAbort => match reply {
            Err(e) => fails_with(next, action, e),
            Ok(_) => next is AwaitClear && clears(action, dataset),
        },
        PruneState::AwaitClear => match reply {
            Err(e) => fails_with(next, action, e),
            Ok(_) => next is AwaitList && lists(action, dataset),
        },
        PruneState::AwaitList => match snapshots_in(reply) {
            None => fails_with(next, action, reply->Err_0),
            Some(snapshots) => {
                let kept = policy_keeps(snapshots, now, prune.config);
                let candidates = policy_deletes(snapshots, now, prune.config);
                if candidates.len() == 0 {
                    ends_with(next, action, kept, seq![], false, seq![])
                } else {
                    &&& match next {
                        PruneState::AwaitHolds { kept: k, candidates: c } => kept_texts(k@) == kept
                            && texts(c@) == candidates,
                        _ => false,
                    }
                    &&& match action {
                        PruneAction::Run(ZfsCommand::Holds { snapshots: s }) => texts(s@)
                            == candidates,
                        _ => false,
                    }
                }
            },
        },
        PruneState::AwaitHolds { kept, candidates } => match reply {
            Err(e) => fails_with(next, action, e),
            Ok(output) => starts_destroying(
                prune,
                kept_texts(kept@),
                texts(candidates@).filter(without_holds(lines_of(output@))),
                held_back(texts(candidates@), lines_of(output@)),
                next,
                action,
            ),
        },
        PruneState::Destroying { kept, hold_skipped, doomed, done } => match reply {
            Err(e) => fails_with(next, action, e),
            Ok(_) => if done + 1 < doomed@.len() {
                &&& match next {
                    PruneState::Destroying { kept: k, hold_skipped: h, doomed: d, done: n } => k
                        == kept && h == hold_skipped && d == doomed && n == done + 1,
                    _ => false,
                }
                &&& destroys(action, doomed@[done + 1]@)
            } else {
                ends_with(
                    next,
                    action,
                    kept_texts(kept@),
                    texts(doomed@),
                    false,
                    pair_texts(hold_skipped@),
                )
            },
        },
        PruneState::Finished => false,
    }
}

/// Whether `action` is to drop the note on `dataset`.
pub open spec fn clears(action: PruneAction, dataset: Seq<char>) -> bool {
    match action {
        PruneAction::Run(ZfsCommand::ClearResumeSince { dataset: d }) => d@ == dataset,
        _ => false,
    }
}

/// Whether `action` is to list the snapshots of `dataset`.
pub open spec fn lists(action: PruneAction, dataset: Seq<char>) -> bool {
    match action {
        PruneAction::Run(ZfsCommand::ListSnapshots { dataset: d }) => d@ == dataset,
        _ => false,
    }
}

proof fn lemma_candidates_are_destroyable(
    snapshots: Seq<Seq<char>>,
    now: Timestamp,
    config: RetentionConfig,
)
    requires
        forall|i: int|
            0 <= i < snapshots.len() ==> stamp(#[trigger] snapshots[i]) is Some && has_single_at(
                snapshots[i],
            ),
    ensures
        forall|i: int|
            0 <= i < policy_deletes(snapshots, now, config).len() ==> may_destroy(
                #[trigger] policy_deletes(snapshots, now, config)[i],
            ),
{
    broadcast use vstd::seq_lib::group_to_multiset_ensures;

    let order = in_time_order(snapshots);
    let deleted = policy_deletes(snapshots, now, config);
    time_order_is_a_stable_sort(snapshots);
    assert forall|i: int| 0 <= i < deleted.len() implies may_destroy(#[trigger] deleted[i]) by {
        let k = lemma_deleted(order, snapshots.len() as int, now, config, i);
        assert(order.contains(order[k]));
        assert(order.to_multiset().count(order[k]) > 0);
        assert(snapshots.contains(order[k]));
        let j = choose|j: int| 0 <= j < snapshots.len() && snapshots[j] == order[k];
        assert(stamp(snapshots[j]) is Some);
    }
}

proof fn lemma_holds_agree(
    candidates: Seq<Seq<char>>,
    table: Seq<(String, Vec<String>)>,
    holds: Seq<Seq<char>>,
)
    requires
        forall|name: Seq<char>| #[trigger] held_tags(table, name) == tags_for(holds, name),
    ensures
        candidates.filter(unprotected(table)) == candidates.filter(without_holds(holds)),
        protected_of(candidates, table) == held_back(candidates, holds),
    decreases candidates.len(),
{
    reveal(Seq::filter);
    if candidates.len() > 0 {
        lemma_holds_agree(candidates.drop_last(), table, holds);
        assert(held_tags(table, candidates.last()) == tags_for(holds, candidates.last()));
    }
}

proof fn lemma_filtered_destroyable(names: Seq<String>, f: spec_fn(Seq<char>) -> bool, r: Seq<String>)
    requires
        all_destroyable(names),
        texts(r) == texts(names).filter(f),
    ensures
        all_destroyable(r),
{
    let all = texts(names);
    assert forall|i: int| 0 <= i < r.len() implies may_destroy((#[trigger] r[i])@) by {
        assert(texts(r)[i] == r[i]@);
        assert(all.filter(f).contains(r[i]@));
        all.lemma_filter_contains_rev(f, r[i]@);
        let k = choose|k: int| 0 <= k < all.len() && all[k] == r[i]@;
        assert(names[k]@ == r[i]@);
    }
}

fn finish(
    kept: Vec<(String, KeepReason)>,
    deleted: Vec<String>,
    resume_skipped: bool,
    hold_skipped: Vec<(String, String)>,
) -> (r: (PruneState, PruneAction))
    ensures
        ends_with(
            r.0,
            r.1,
            kept_texts(kept@),
            texts(deleted@),
            resume_skipped,
            pair_texts(hold_skipped@),
        ),
{
    let result = PruneResult { kept, deleted, resume_skipped, hold_skipped };
    (PruneState::Finished, PruneAction::Done(Ok(result)))
}

/// Whether pruning a dataset begins so.
pub open spec fn begins(
    dataset: Seq<char>,
    config: RetentionConfig,
    hold_days: Option<u32>,
    dry_run: bool,
    abort_resume: bool,
    prune: Prune,
    state: PruneState,
    action: PruneAction,
) -> bool {
    &&& prune.dataset@ == dataset
    &&& prune.config == config
    &&& prune.hold_days == hold_days
    &&& prune.dry_run == dry_run
    &&& prune.abort_resume == abort_resume
    &&& state is AwaitToken
    &&& match action {
        PruneAction::Run(ZfsCommand::GetResumeToken { dataset: d }) => d@ == dataset,
        _ => false,
    }
}

/// Begins to prune `dataset`: what to prune and how, where that stands, and what to
/// do first.
pub fn prune(
    dataset: &str,
    config: &RetentionConfig,
    hold_days: Option<u32>,
    dry_run: bool,
    abort_resume: bool,
) -> (r: (Prune, PruneState, PruneAction))
    ensures
        begins(dataset@, *config, hold_days, dry_run, abort_resume, r.0, r.1, r.2),
        r.1.valid(dry_run),
{
    let prune = Prune {
        dataset: dataset.to_owned(),
        config: *config,
        hold_days,
        dry_run,
        abort_resume,
    };
    let command = ZfsCommand::GetResumeToken { dataset: dataset.to_owned() };
    (prune, PruneState::AwaitToken, PruneAction::Run(command))
}

impl Prune {
    fn list_now(&self) -> (r: (PruneState, PruneAction))
        ensures
            r.0 is AwaitList,
            lists(r.1, self.dataset@),
    {
        let command = ZfsCommand::ListSnapshots { dataset: self.dataset.clone() };
        (PruneState::AwaitList, PruneAction::Run(command))
    }

    fn clear_now(&self) -> (r: (PruneState, PruneAction))
        ensures
            r.0 is AwaitClear,
            clears(r.1, self.dataset@),
    {
        let command = ZfsCommand::ClearResumeSince { dataset: self.dataset.clone() };
        (PruneState::AwaitClear, PruneAction::Run(command))
    }

    fn on_since(&self, has_token: bool, since: Option<Timestamp>, now: Timestamp) -> (r: (
        PruneState,
        PruneAction,
    ))
        requires
            now.valid(),
            since is Some ==> since->0.valid(),
        ensures
            match final_decision(*self, has_token, since, now) {
                ResumeDecision::Wait => ends_with(r.0, r.1, seq![], seq![], true, seq![]),
                ResumeDecision::Idle => if since is Some && !self.dry_run {
                    r.0 is AwaitClear && clears(r.1, self.dataset@)
                } else {
                    r.0 is AwaitList && lists(r.1, self.dataset@)
                },
                ResumeDecision::Expire => if !self.dry_run {
                    &&& r.0 is AwaitAbort
                    &&& match r.1 {
                        PruneAction::Run(ZfsCommand::AbortResume { dataset: d }) => d@
                            == self.dataset@,
                        _ => false,
                    }
                } else {
                    r.0 is AwaitList && lists(r.1, self.dataset@)
                },
            },
            r.0.valid(self.dry_run),
    {
        let had_since = since.is_some();
        let mut decision = resume_decision(has_token, since, now, self.hold_days);
        if self.abort_resume && decision == ResumeDecision::Wait {
            decision = ResumeDecision::Expire;
        }
        match decision {
            ResumeDecision::Idle => if had_since && !self.dry_run {
                self.clear_now()
            } else {
                self.list_now()
            },
            ResumeDecision::Wait => {
                let r = finish(Vec::new(), Vec::new(), true, Vec::new());
                assert(kept_texts(Seq::<(String, KeepReason)>::empty()) =~= seq![]);
                assert(texts(Seq::<String>::empty()) =~= seq![]);
                assert(pair_texts(Seq::<(String, String)>::empty()) =~= seq![]);
                r
            },
            ResumeDecision::Expire => if !self.dry_run {
                let command = ZfsCommand::AbortResume { dataset: self.dataset.clone() };
                (PruneState::AwaitAbort, PruneAction::Run(command))
            } else {
                self.list_now()
            },
        }
    }

    fn on_list(&self, raw: Vec<String>, now: Timestamp) -> (r: (PruneState, PruneAction))
        requires
            self.config.fits(now),
        ensures
            ({
                let snapshots = listing(texts(raw@));
                let kept = policy_keeps(snapshots, now, self.config);
                let candidates = policy_deletes(snapshots, now, self.config);
                if candidates.len() == 0 {
                    ends_with(r.0, r.1, kept, seq![], false, seq![])
                } else {
                    &&& match r.0 {
                        PruneState::AwaitHolds { kept: k, candidates: c } => kept_texts(k@) == kept
                            && texts(c@) == candidates,
                        _ => false,
                    }
                    &&& match r.1 {
                        PruneAction::Run(ZfsCommand::Holds { snapshots: s }) => texts(s@)
                            == candidates,
                        _ => false,
                    }
                }
            }),
            r.0.valid(self.dry_run),
    {
        let snapshots = list(raw.as_slice());
        let (kept, candidates) = apply(snapshots.as_slice(), now, &self.config);
        proof {
            assert forall|i: int| 0 <= i < texts(snapshots@).len() implies stamp(
                #[trigger] texts(snapshots@)[i],
            ) is Some && has_single_at(texts(snapshots@)[i]) by {
                assert(stamp(snapshots@[i]@) is Some);
            }
            lemma_candidates_are_destroyable(texts(snapshots@), now, self.config);
            assert forall|i: int| 0 <= i < candidates@.len() implies may_destroy(
                (#[trigger] candidates@[i])@,
            ) by {
                assert(texts(candidates@)[i] == candidates@[i]@);
            }
        }
        if candidates.len() == 0 {
            assert(texts(candidates@) =~= seq![]);
            assert(pair_texts(Seq::<(String, String)>::empty()) =~= seq![]);
            finish(kept, candidates, false, Vec::new())
        } else {
            let command = ZfsCommand::Holds { snapshots: copy_list(candidates.as_slice()) };
            (PruneState::AwaitHolds { kept, candidates }, PruneAction::Run(command))
        }
    }

    fn on_holds(
        &self,
        kept: Vec<(String, KeepReason)>,
        candidates: Vec<String>,
        holds: HoldsTable,
        Ghost(output): Ghost<Seq<Seq<char>>>,
    ) -> (r: (PruneState, PruneAction))
        requires
            all_destroyable(candidates@),
            forall|name: Seq<char>| #[trigger] held_tags(holds@, name) == tags_for(output, name),
        ensures
            starts_destroying(
                *self,
                kept_texts(kept@),
                texts(candidates@).filter(without_holds(output)),
                held_back(texts(candidates@), output),
                r.0,
                r.1,
            ),
            r.0.valid(self.dry_run),
    {
        let ghost all = candidates@;
        let (doomed, hold_skipped) = classify_candidates(candidates, &holds);
        proof {
            lemma_holds_agree(texts(all), holds@, output);
            lemma_filtered_destroyable(all, unprotected(holds@), doomed@);
        }
        if self.dry_run || doomed.len() == 0 {
            finish(kept, doomed, false, hold_skipped)
        } else {
            assert(texts(doomed@)[0] == doomed@[0]@);
            let command = destroy_snapshot(doomed[0].clone());
            (
                PruneState::Destroying { kept, hold_skipped, doomed, done: 0 },
                PruneAction::Run(command),
            )
        }
    }

    /// What the answer to the last command leads to. `now` is the time.
    pub fn step(&self, state: PruneState, reply: Result<String, ClientError>, now: Timestamp) -> (r: (
        PruneState,
        PruneAction,
    ))
        requires
            !(state is Finished),
            state.valid(self.dry_run),
            now.valid(),
            state is AwaitList ==> self.config.fits(now),
        ensures
            prune_step(*self, state, reply, now, r.0, r.1),
            r.0.valid(self.dry_run),
    {
        match state {
            PruneState::AwaitToken => match get_resume_token(reply) {
                Err(e) => (PruneState::Finished, PruneAction::Done(Err(e))),
                Ok(token) => {
                    let command = ZfsCommand::GetResumeSince { dataset: self.dataset.clone() };
                    (
                        PruneState::AwaitSince { has_token: token.is_some() },
                        PruneAction::Run(command),
                    )
                },
            },
            PruneState::AwaitSince { has_token } => match get_resume_since(reply) {
                Err(e) => (PruneState::Finished, PruneAction::Done(Err(e))),
                Ok(since) => self.on_since(has_token, since, now),
            },
            PruneState::AwaitAbort => match completed(reply) {
                Err(e) => (PruneState::Finished, PruneAction::Done(Err(e))),
                Ok(_) => self.clear_now(),
            },
            PruneState::AwaitClear => match completed(reply) {
                Err(e) => (PruneState::Finished, PruneAction::Done(Err(e))),
                Ok(_) => self.list_now(),
            },
            PruneState::AwaitList => match list_snapshots(reply) {
                Err(e) => (PruneState::Finished, PruneAction::Done(Err(e))),
                Ok(raw) => {
                    proof {
                        if reply is Err {
                            assert(texts(raw@) =~= seq![]);
                        }
                    }
                    self.on_list(raw, now)
                },
            },
            PruneState::AwaitHolds { kept, candidates } => {
                let ghost output = lines_of(reply->Ok_0@);
                match batch_snapshot_holds(candidates.as_slice(), reply) {
                    Err(e) => (PruneState::Finished, PruneAction::Done(Err(e))),
                    Ok(holds) => self.on_holds(kept, candidates, holds, Ghost(output)),
                }
            },
            PruneState::Destroying { kept, hold_skipped, doomed, done } => match completed(reply) {
                Err(e) => (PruneState::Finished, PruneAction::Done(Err(e))),
                Ok(_) => {
                    let n: usize = doomed.len();
                    if done + 1 < n {
                        let command = destroy_snapshot(doomed[done + 1].clone());
                        (
                            PruneState::Destroying { kept, hold_skipped, doomed, done: done + 1 },
                            PruneAction::Run(command),
                        )
                    } else {
                        finish(kept, doomed, false, hold_skipped)
                    }
                },
            },
            PruneState::Finished => (
                PruneState::Finished,
                PruneAction::Done(Err(ClientError::Spawn(String::new()))),
            ),
        }
    }
}

// ---------------------------------------------------------------------------
// Laws
// ---------------------------------------------------------------------------

/// A dry run never runs a command that changes anything, whatever the pool answers.
pub proof fn dry_run_changes_nothing(
    prune: Prune,
    state: PruneState,
    reply: Result<String, ClientError>,
    now: Timestamp,
    next: PruneState,
    action: PruneAction,
)
    requires
        prune.dry_run,
        state.valid(prune.dry_run),
        prune_step(prune, state, reply, now, next, action),
    ensures
        match action {
            PruneAction::Run(command) => !command.mutates(),
            PruneAction::Done(_) => true,
        },
{
}

/// While an interrupted transfer may go on, pruning ends at once: nothing is deleted,
/// and the result says that it was skipped.
pub proof fn waiting_transfer_is_left_alone(
    prune: Prune,
    has_token: bool,
    reply: Result<String, ClientError>,
    now: Timestamp,
    next: PruneState,
    action: PruneAction,
)
    requires
        prune_step(prune, PruneState::AwaitSince { has_token }, reply, now, next, action),
        since_in(reply) is Some,
        decision_for(has_token, since_in(reply)->0, now, prune.hold_days) == ResumeDecision::Wait,
        !prune.abort_resume,
    ensures
        ends_with(next, action, seq![], seq![], true, seq![]),
{
}

/// With the order to give up interrupted transfers, none keeps a dataset from being
/// pruned.
pub proof fn order_to_abort_overrides_waiting(
    prune: Prune,
    has_token: bool,
    since: Option<Timestamp>,
    now: Timestamp,
)
    requires
        prune.abort_resume,
    ensures
        final_decision(prune, has_token, since, now) != ResumeDecision::Wait,
        final_decision(prune, has_token, since, now) == ResumeDecision::Idle <==> !has_token,
{
}

/// What is destroyed is a managed snapshot that the policy gives up and that no
/// transfer hold protects.
pub proof fn only_unprotected_snapshots_are_doomed(
    prune: Prune,
    kept: Vec<(String, KeepReason)>,
    candidates: Vec<String>,
    output: String,
    now: Timestamp,
    next: PruneState,
    action: PruneAction,
)
    requires
        (PruneState::AwaitHolds { kept, candidates }).valid(prune.dry_run),
        prune_step(
            prune,
            PruneState::AwaitHolds { kept, candidates },
            Ok(output),
            now,
            next,
            action,
        ),
    ensures
        match next {
            PruneState::Destroying { doomed, .. } => forall|i: int|
                0 <= i < doomed@.len() ==> {
                    &&& texts(candidates@).contains((#[trigger] doomed@[i])@)
                    &&& may_destroy(doomed@[i]@)
                    &&& tags_for(lines_of(output@), doomed@[i]@).filter(
                        is_transfer_hold(),
                    ).len() == 0
                },
            _ => true,
        },
{
    match next {
        PruneState::Destroying { doomed, .. } => {
            let all = texts(candidates@);
            let f = without_holds(lines_of(output@));
            assert forall|i: int| 0 <= i < doomed@.len() implies {
                &&& all.contains((#[trigger] doomed@[i])@)
                &&& may_destroy(doomed@[i]@)
                &&& tags_for(lines_of(output@), doomed@[i]@).filter(is_transfer_hold()).len() == 0
            } by {
                let name = doomed@[i]@;
                assert(texts(doomed@)[i] == name);
                all.lemma_filter_pred(f, i);
                assert(f(name));
                assert(all.filter(f).contains(name));
                all.lemma_filter_contains_rev(f, name);
                let k = choose|k: int| 0 <= k < all.len() && all[k] == name;
                assert(candidates@[k]@ == name);
            }
        },
        _ => {},
    }
}

/// One step of pruning.
pub struct PruneStep {
    pub before: PruneState,
    pub reply: Result<String, ClientError>,
    pub now: Timestamp,
    pub after: PruneState,
    pub action: PruneAction,
}

/// Whether `steps` is how pruning went from its start on.
pub open spec fn is_run(prune: Prune, steps: Seq<PruneStep>) -> bool {
    &&& steps.len() > 0 ==> steps[0].before is AwaitToken
    &&& forall|i: int|
        #![trigger steps[i]]
        0 <= i < steps.len() ==> prune_step(
            prune,
            steps[i].before,
            steps[i].reply,
            steps[i].now,
            steps[i].after,
            steps[i].action,
        )
    &&& forall|i: int|
        #![trigger steps[i]]
        0 < i < steps.len() ==> steps[i].before == steps[i - 1].after
}

/// What the pool answers to the questions that pruning asks, and the time at which.
pub struct Answers {
    pub token: Result<String, ClientError>,
    pub since: Result<String, ClientError>,
    pub list: Result<String, ClientError>,
    pub holds: Result<String, ClientError>,
    pub now: Timestamp,
}

/// Whether a step hears one of these answers, where it asks a question.
pub open spec fn hears(step: PruneStep, answers: Answers) -> bool {
    match step.before {
        PruneState::AwaitToken => step.reply == answers.token,
        PruneState::AwaitSince { .. } => step.reply == answers.since && step.now == answers.now,
        PruneState::AwaitList => step.reply == answers.list && step.now == answers.now,
        PruneState::AwaitHolds { .. } => step.reply == answers.holds,
        _ => true,
    }
}

/// Whether an interrupted transfer does not keep pruning from going on.
pub open spec fn goes_on(prune: Prune, answers: Answers) -> bool {
    match (token_in(answers.token), since_in(answers.since)) {
        (Some(has_token), Some(since)) => final_decision(prune, has_token, since, answers.now)
            != ResumeDecision::Wait,
        _ => false,
    }
}

/// What the policy keeps and gives up, once the snapshots are known.
pub open spec fn policy_parts(prune: Prune, answers: Answers) -> (
    Seq<(Seq<char>, KeepReason)>,
    Seq<Seq<char>>,
) {
    match snapshots_in(answers.list) {
        Some(snapshots) => (
            policy_keeps(snapshots, answers.now, prune.config),
            policy_deletes(snapshots, answers.now, prune.config),
        ),
        None => (seq![], seq![]),
    }
}

/// What goes: what the policy gives up and no transfer hold protects.
pub open spec fn goes(prune: Prune, answers: Answers) -> Seq<Seq<char>> {
    let candidates = policy_parts(prune, answers).1;
    if !goes_on(prune, answers) || candidates.len() == 0 {
        seq![]
    } else {
        match answers.holds {
            Ok(output) => candidates.filter(without_holds(lines_of(output@))),
            Err(_) => seq![],
        }
    }
}

/// What a transfer hold protects of what the policy gives up.
pub open spec fn stays(prune: Prune, answers: Answers) -> Seq<(Seq<char>, Seq<char>)> {
    let candidates = policy_parts(prune, answers).1;
    if !goes_on(prune, answers) || candidates.len() == 0 {
        seq![]
    } else {
        match answers.holds {
            Ok(output) => held_back(candidates, lines_of(output@)),
            Err(_) => seq![],
        }
    }
}

/// Whether `result` is what pruning ends with, by these answers: nothing where an
/// interrupted transfer waits; else what the policy keeps, what goes, and what a hold
/// protects.
pub open spec fn results_in(prune: Prune, answers: Answers, result: PruneResult) -> bool {
    &&& result.resume_skipped == !goes_on(prune, answers)
    &&& kept_texts(result.kept@) == if goes_on(prune, answers) {
        policy_parts(prune, answers).0
    } else {
        seq![]
    }
    &&& texts(result.deleted@) == goes(prune, answers)
    &&& pair_texts(result.hold_skipped@) == stays(prune, answers)
}

/// The snapshots that these steps order to be destroyed, in this order.
pub open spec fn destroyed(steps: Seq<PruneStep>) -> Seq<Seq<char>>
    decreases steps.len(),
{
    if steps.len() == 0 {
        seq![]
    } else {
        let before = destroyed(steps.drop_last());
        match steps.last().action {
            PruneAction::Run(ZfsCommand::DestroySnapshot { snapshot }) => before.push(snapshot@),
            _ => before,
        }
    }
}

/// What is known in a state, by these answers.
pub open spec fn so_far(prune: Prune, answers: Answers, state: PruneState) -> bool {
    match state {
        PruneState::AwaitToken => true,
        PruneState::AwaitSince { has_token } => token_in(answers.token) == Some(has_token),
        PruneState::AwaitAbort => goes_on(prune, answers),
        PruneState::AwaitClear => goes_on(prune, answers),
        PruneState::AwaitList => goes_on(prune, answers),
        PruneState::AwaitHolds { kept, candidates } => {
            &&& goes_on(prune, answers)
            &&& kept_texts(kept@) == policy_parts(prune, answers).0
            &&& texts(candidates@) == policy_parts(prune, answers).1
            &&& candidates@.len() > 0
        },
        PruneState::Destroying { kept, hold_skipped, doomed, done } => {
            &&& goes_on(prune, answers)
            &&& !prune.dry_run
            &&& kept_texts(kept@) == policy_parts(prune, answers).0
            &&& pair_texts(hold_skipped@) == stays(prune, answers)
            &&& texts(doomed@) == goes(prune, answers)
            &&& done < doomed@.len()
        },
        PruneState::Finished => true,
    }
}

/// How many snapshots were ordered to be destroyed when a state is reached.
pub open spec fn ordered_at(state: PruneState) -> int {
    match state {
        PruneState::Destroying { done, .. } => done + 1,
        _ => 0,
    }
}

#[verifier::rlimit(40)]
proof fn lemma_step_so_far(prune: Prune, answers: Answers, step: PruneStep)
    requires
        so_far(prune, answers, step.before),
        hears(step, answers),
        prune_step(prune, step.before, step.reply, step.now, step.after, step.action),
    ensures
        so_far(prune, answers, step.after),
        match step.action {
            PruneAction::Done(Ok(result)) => results_in(prune, answers, result) && (
            prune.dry_run || ordered_at(step.before) == goes(prune, answers).len()),
            PruneAction::Done(Err(_)) => true,
            PruneAction::Run(ZfsCommand::DestroySnapshot { snapshot }) => {
                &&& step.after is Destroying
                &&& ordered_at(step.after) == ordered_at(step.before) + 1
                &&& snapshot@ == goes(prune, answers)[ordered_at(step.before)]
            },
            PruneAction::Run(_) => ordered_at(step.before) == 0 && ordered_at(step.after) == 0,
        },
        step.action is Done <==> step.after is Finished,
{
    match step.before {
        PruneState::AwaitHolds { kept, candidates } => {
            assert(texts(candidates@).len() == candidates@.len());
            match step.after {
                PruneState::Destroying { doomed, .. } => {
                    assert(texts(doomed@).len() == doomed@.len());
                },
                _ => {},
            }
        },
        PruneState::AwaitList => {
            match step.after {
                PruneState::AwaitHolds { candidates, .. } => {
                    assert(texts(candidates@).len() == candidates@.len());
                },
                _ => {},
            }
        },
        PruneState::Destroying { doomed, done, .. } => {
            assert(texts(doomed@).len() == doomed@.len());
            if done + 1 < doomed@.len() {
                assert(texts(doomed@)[done + 1] == doomed@[done + 1]@);
            }
        },
        _ => {},
    }
}

/// How far a run has come, by these answers.
#[verifier::rlimit(40)]
pub proof fn lemma_run_so_far(prune: Prune, answers: Answers, steps: Seq<PruneStep>)
    requires
        steps.len() > 0,
        is_run(prune, steps),
        forall|i: int| 0 <= i < steps.len() ==> hears(#[trigger] steps[i], answers),
    ensures
        so_far(prune, answers, steps.last().after),
        destroyed(steps).len() <= goes(prune, answers).len(),
        destroyed(steps) == goes(prune, answers).take(destroyed(steps).len() as int),
        !(steps.last().after is Finished) ==> destroyed(steps).len() == ordered_at(
            steps.last().after,
        ),
        prune.dry_run ==> destroyed(steps).len() == 0,
        match steps.last().action {
            PruneAction::Done(Ok(result)) => results_in(prune, answers, result) && (prune.dry_run
                || destroyed(steps) == goes(prune, answers)),
            _ => true,
        },
    decreases steps.len(),
{
    let rest = steps.drop_last();
    let n = steps.len() - 1;
    let step = steps.last();
    let all = goes(prune, answers);
    assert(step == steps[n]);
    assert(prune_step(prune, step.before, step.reply, step.now, step.after, step.action));
    if n > 0 {
        assert forall|i: int| 0 <= i < rest.len() implies hears(#[trigger] rest[i], answers) by {
            assert(rest[i] == steps[i]);
        }
        assert(is_run(prune, rest)) by {
            assert(rest[0] == steps[0]);
            assert forall|i: int|
                #![trigger rest[i]]
                0 <= i < rest.len() implies prune_step(
                prune,
                rest[i].before,
                rest[i].reply,
                rest[i].now,
                rest[i].after,
                rest[i].action,
            ) by {
                assert(rest[i] == steps[i]);
            }
            assert forall|i: int|
                #![trigger rest[i]]
                0 < i < rest.len() implies rest[i].before == rest[i - 1].after by {
                assert(rest[i] == steps[i]);
            }
        }
        lemma_run_so_far(prune, answers, rest);
        assert(steps[n].before == steps[n - 1].after);
        assert(rest.last() == steps[n - 1]);
    } else {
        assert(destroyed(rest) =~= seq![]);
    }
    lemma_step_so_far(prune, answers, step);
    let k = destroyed(rest).len() as int;
    assert(all.take(0) =~= seq![]);
    match step.action {
        PruneAction::Run(ZfsCommand::DestroySnapshot { snapshot }) => {
            match step.after {
                PruneState::Destroying { doomed, .. } => {
                    assert(texts(doomed@).len() == doomed@.len());
                },
                _ => {},
            }
            assert(all.take(k + 1) =~= all.take(k).push(all[k]));
        },
        _ => {
            assert(all.take(all.len() as int) =~= all);
        },
    }
}

/// However far a run gets and whatever fails, it orders snapshots to be destroyed only
/// as the answers say that they go, from the first on.
pub proof fn no_more_is_destroyed_than_goes(
    prune: Prune,
    answers: Answers,
    steps: Seq<PruneStep>,
)
    requires
        is_run(prune, steps),
        forall|i: int| 0 <= i < steps.len() ==> hears(#[trigger] steps[i], answers),
    ensures
        destroyed(steps).len() <= goes(prune, answers).len(),
        destroyed(steps) == goes(prune, answers).take(destroyed(steps).len() as int),
        prune.dry_run ==> destroyed(steps).len() == 0,
{
    if steps.len() > 0 {
        lemma_run_so_far(prune, answers, steps);
    } else {
        assert(goes(prune, answers).take(0) =~= seq![]);
    }
}

/// A dry run and a run that hear the same answers, and that both come to a result, have
/// the same result. What it gives as deleted is what the run has destroyed, in this
/// order; the dry run has destroyed nothing.
pub proof fn dry_run_shows_what_a_run_destroys(
    preview: Prune,
    actual: Prune,
    answers: Answers,
    dry_steps: Seq<PruneStep>,
    steps: Seq<PruneStep>,
    shown: PruneResult,
    result: PruneResult,
)
    requires
        preview.dry_run,
        !actual.dry_run,
        preview.config == actual.config,
        preview.hold_days == actual.hold_days,
        preview.abort_resume == actual.abort_resume,
        is_run(preview, dry_steps),
        is_run(actual, steps),
        forall|i: int| 0 <= i < dry_steps.len() ==> hears(#[trigger] dry_steps[i], answers),
        forall|i: int| 0 <= i < steps.len() ==> hears(#[trigger] steps[i], answers),
        dry_steps.len() > 0,
        steps.len() > 0,
        dry_steps.last().action == PruneAction::Done(Ok(shown)),
        steps.last().action == PruneAction::Done(Ok(result)),
    ensures
        kept_texts(shown.kept@) == kept_texts(result.kept@),
        texts(shown.deleted@) == texts(result.deleted@),
        shown.resume_skipped == result.resume_skipped,
        pair_texts(shown.hold_skipped@) == pair_texts(result.hold_skipped@),
        destroyed(steps) == texts(shown.deleted@),
        destroyed(dry_steps).len() == 0,
{
    lemma_run_so_far(preview, answers, dry_steps);
    lemma_run_so_far(actual, answers, steps);
}

/// A snapshot that carries a transfer hold is not destroyed, and where it is a
/// candidate the result lists it with that hold.
pub proof fn held_snapshots_survive(
    prune: Prune,
    kept: Vec<(String, KeepReason)>,
    candidates: Vec<String>,
    output: String,
    now: Timestamp,
    next: PruneState,
    action: PruneAction,
    name: Seq<char>,
    tag: Seq<char>,
)
    requires
        prune_step(
            prune,
            PruneState::AwaitHolds { kept, candidates },
            Ok(output),
            now,
            next,
            action,
        ),
        tags_for(lines_of(output@), name).contains(tag),
        has_prefix(tag, "zrb:"@),
    ensures
        match next {
            PruneState::Destroying { doomed, .. } => !texts(doomed@).contains(name),
            _ => true,
        },
        match action {
            PruneAction::Done(Ok(result)) => !texts(result.deleted@).contains(name),
            _ => true,
        },
        texts(candidates@).contains(name) ==> held_back(
            texts(candidates@),
            lines_of(output@),
        ).contains((name, tag)),
{
    let holds = lines_of(output@);
    let all = texts(candidates@);
    let f = without_holds(holds);
    let tags = tags_for(holds, name);
    let k = choose|k: int| 0 <= k < tags.len() && tags[k] == tag;
    tags.lemma_filter_contains(is_transfer_hold(), k);
    let kept_tags = tags.filter(is_transfer_hold());
    assert(kept_tags.contains(tag));
    assert(!f(name));
    if all.filter(f).contains(name) {
        let i = choose|i: int| 0 <= i < all.filter(f).len() && all.filter(f)[i] == name;
        all.lemma_filter_pred(f, i);
    }
    if all.contains(name) {
        lemma_held_back_lists(all, holds, name, tag);
    }
}

proof fn lemma_held_back_lists(
    candidates: Seq<Seq<char>>,
    holds: Seq<Seq<char>>,
    name: Seq<char>,
    tag: Seq<char>,
)
    requires
        candidates.contains(name),
        tags_for(holds, name).filter(is_transfer_hold()).contains(tag),
    ensures
        held_back(candidates, holds).contains((name, tag)),
    decreases candidates.len(),
{
    let rest = candidates.drop_last();
    let before = held_back(rest, holds);
    let all = held_back(candidates, holds);
    if candidates.last() == name {
        let tags = tags_for(holds, name).filter(is_transfer_hold());
        let k = choose|k: int| 0 <= k < tags.len() && tags[k] == tag;
        assert(with_each(name, tags)[k] == (name, tag));
        assert(all[before.len() + k] == (name, tag));
    } else {
        let i = choose|i: int| 0 <= i < candidates.len() && candidates[i] == name;
        assert(rest[i] == name);
        lemma_held_back_lists(rest, holds, name, tag);
        let k = choose|k: int| 0 <= k < before.len() && before[k] == (name, tag);
        assert(all[k] == (name, tag));
    }
}

/// How far pruning has to go: the stage, and what is left to destroy.
pub open spec fn way_to_go(state: PruneState) -> (int, int) {
    match state {
        PruneState::AwaitToken => (7, 0),
        PruneState::AwaitSince { .. } => (6, 0),
        PruneState::AwaitAbort => (5, 0),
        PruneState::AwaitClear => (4, 0),
        PruneState::AwaitList => (3, 0),
        PruneState::AwaitHolds { .. } => (2, 0),
        PruneState::Destroying { doomed, done, .. } => (1, doomed@.len() - done),
        PruneState::Finished => (0, 0),
    }
}

/// Pruning comes to an end: every answer brings it closer.
pub proof fn pruning_comes_to_an_end(
    prune: Prune,
    state: PruneState,
    reply: Result<String, ClientError>,
    now: Timestamp,
    next: PruneState,
    action: PruneAction,
)
    requires
        state.valid(prune.dry_run),
        prune_step(prune, state, reply, now, next, action),
    ensures
        way_to_go(next).0 < way_to_go(state).0 || (way_to_go(next).0 == way_to_go(state).0
            && 0 <= way_to_go(next).1 < way_to_go(state).1),
        action is Done <==> next is Finished,
{
}

} // verus!
