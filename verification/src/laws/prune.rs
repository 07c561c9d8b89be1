//! Pruning.

use crate::laws::text::prefix_stands_in_front;
use crate::ops::list::listing;
use crate::ops::prune::{
    begins, decision_for, destroyed, goes, hears, held_back, is_run, is_transfer_hold,
    lemma_run_so_far, pair_texts, policy_parts, protected_of, prune_step, unprotected, with_each,
    without_holds, Answers, Prune, PruneAction, PruneResult, PruneState, PruneStep, ResumeDecision,
};
use crate::retention::policy::{kept_texts, policy_deletes, policy_keeps, RetentionConfig};
use crate::snapshot::naming::{managed, time_order_is_a_stable_sort};
use crate::text::{has_prefix, lines_of, texts, trimmed, two_fields};
use crate::time::{nanos_between, Timestamp};
use crate::zfs::client::{
    held_tags, listed_name, says_not_found, since_of, tags_for, ClientError, ZfsCommand,
};
use vstd::prelude::*;
use vstd::string::*;

verus! {

// ---------------------------------------------------------------------------
// Interrupted transfers
// ---------------------------------------------------------------------------

/// A pending transfer with a note is given up exactly once as many days have passed since
/// the note as are configured, be they few or many. One without a note waits on. One
/// without a configured period is given up at once. Without one there is nothing to do.
pub proof fn pending_transfer_waits_out_its_days(
    since: Timestamp,
    now: Timestamp,
    days: u32,
    hold_days: Option<u32>,
)
    ensures
        nanos_between(now, since) >= days * 86_400_000_000_000 ==> decision_for(
            true,
            Some(since),
            now,
            Some(days),
        ) == ResumeDecision::Expire,
        nanos_between(now, since) < days * 86_400_000_000_000 ==> decision_for(
            true,
            Some(since),
            now,
            Some(days),
        ) == ResumeDecision::Wait,
        decision_for(true, None, now, hold_days) == ResumeDecision::Wait,
        decision_for(true, Some(since), now, None) == ResumeDecision::Expire,
        decision_for(false, Some(since), now, hold_days) == ResumeDecision::Idle,
        decision_for(false, None, now, hold_days) == ResumeDecision::Idle,
{
}

/// More configured days never make a transfer be given up earlier: while it waits under
/// some, it waits under more. And the later it is, the sooner it is given up.
pub proof fn more_days_wait_longer(
    since: Timestamp,
    now: Timestamp,
    then: Timestamp,
    fewer: u32,
    more: u32,
)
    requires
        fewer <= more,
        nanos_between(now, since) <= nanos_between(then, since),
    ensures
        decision_for(true, Some(since), now, Some(fewer)) == ResumeDecision::Wait ==> decision_for(
            true,
            Some(since),
            now,
            Some(more),
        ) == ResumeDecision::Wait,
        decision_for(true, Some(since), now, Some(more)) == ResumeDecision::Expire
            ==> decision_for(true, Some(since), then, Some(more)) == ResumeDecision::Expire,
{
}

/// Whether a pending transfer keeps a dataset from being pruned.
pub open spec fn is_waited_for(
    prune: Prune,
    has_token: bool,
    since: Option<Timestamp>,
    now: Timestamp,
) -> bool {
    &&& has_token
    &&& !prune.abort_resume
    &&& match since {
        None => true,
        Some(t) => prune.hold_days is Some && nanos_between(now, t) < prune.hold_days->0
            * 86_400_000_000_000,
    }
}

/// A pending transfer whose days have not passed ends pruning at once, unless it is to be
/// given up; the result says so and is empty. In all other cases pruning goes on: a
/// pending transfer is first given up, a note without a transfer is first dropped, and a
/// dry run does neither.
pub proof fn pending_transfers_come_first(
    prune: Prune,
    has_token: bool,
    output: String,
    now: Timestamp,
    next: PruneState,
    action: PruneAction,
)
    requires
        prune_step(prune, PruneState::AwaitSince { has_token }, Ok(output), now, next, action),
    ensures
        ({
            let since = since_of(trimmed(output@));
            if is_waited_for(prune, has_token, since, now) {
                &&& next is Finished
                &&& match action {
                    PruneAction::Done(Ok(r)) => r.resume_skipped && r.kept@.len() == 0
                        && r.deleted@.len() == 0 && r.hold_skipped@.len() == 0,
                    _ => false,
                }
            } else if has_token && !prune.dry_run {
                &&& next is AwaitAbort
                &&& match action {
                    PruneAction::Run(ZfsCommand::AbortResume { dataset }) => dataset@
                        == prune.dataset@,
                    _ => false,
                }
            } else if !has_token && since is Some && !prune.dry_run {
                &&& next is AwaitClear
                &&& match action {
                    PruneAction::Run(ZfsCommand::ClearResumeSince { dataset }) => dataset@
                        == prune.dataset@,
                    _ => false,
                }
            } else {
                &&& next is AwaitList
                &&& match action {
                    PruneAction::Run(ZfsCommand::ListSnapshots { dataset }) => dataset@
                        == prune.dataset@,
                    _ => false,
                }
            }
        }),
{
    if let PruneAction::Done(Ok(r)) = action {
        assert(kept_texts(r.kept@).len() == r.kept@.len());
        assert(texts(r.deleted@).len() == r.deleted@.len());
        assert(pair_texts(r.hold_skipped@).len() == r.hold_skipped@.len());
    }
}

/// The other steps on the way to the list: the token is looked for, then the note; a
/// transfer that was given up loses its note; and the snapshots are listed. What fails
/// ends pruning with that error, but for a question about a dataset that is not there.
pub proof fn steps_follow_in_order(
    prune: Prune,
    state: PruneState,
    reply: Result<String, ClientError>,
    now: Timestamp,
    next: PruneState,
    action: PruneAction,
)
    requires
        prune_step(prune, state, reply, now, next, action),
    ensures
        match (state, reply) {
            (PruneState::AwaitToken, Ok(output)) => {
                &&& match next {
                    PruneState::AwaitSince { has_token } => has_token == !(trimmed(output@) == "-"@
                        || trimmed(output@) == "none"@),
                    _ => false,
                }
                &&& match action {
                    PruneAction::Run(ZfsCommand::GetResumeSince { dataset }) => dataset@
                        == prune.dataset@,
                    _ => false,
                }
            },
            (PruneState::AwaitAbort, Ok(_)) => {
                &&& next is AwaitClear
                &&& match action {
                    PruneAction::Run(ZfsCommand::ClearResumeSince { dataset }) => dataset@
                        == prune.dataset@,
                    _ => false,
                }
            },
            (PruneState::AwaitClear, Ok(_)) => {
                &&& next is AwaitList
                &&& match action {
                    PruneAction::Run(ZfsCommand::ListSnapshots { dataset }) => dataset@
                        == prune.dataset@,
                    _ => false,
                }
            },
            (PruneState::AwaitToken, Err(e)) => says_not_found(e) || action == PruneAction::Done(
                Err(e),
            ),
            (PruneState::AwaitSince { .. }, Err(e)) => says_not_found(e) || action
                == PruneAction::Done(Err(e)),
            (PruneState::AwaitList, Err(e)) => says_not_found(e) || action == PruneAction::Done(
                Err(e),
            ),
            (_, Err(e)) => action == PruneAction::Done(Err(e)),
            _ => true,
        },
{
}

// ---------------------------------------------------------------------------
// Holds
// ---------------------------------------------------------------------------

/// Whether the lines of a list of holds say that `tag` is on `name`.
pub open spec fn says_held(lines: Seq<Seq<char>>, name: Seq<char>, tag: Seq<char>) -> bool {
    exists|i: int| 0 <= i < lines.len() && two_fields(#[trigger] lines[i]) == Some((name, tag))
}

/// The tags of a snapshot are those that a line gives it.
pub proof fn tags_stand_on_lines(lines: Seq<Seq<char>>, name: Seq<char>, tag: Seq<char>)
    ensures
        tags_for(lines, name).contains(tag) <==> says_held(lines, name, tag),
    decreases lines.len(),
{
    if lines.len() > 0 {
        let rest = lines.drop_last();
        let n = lines.len() - 1;
        tags_stand_on_lines(rest, name, tag);
        let before = tags_for(rest, name);
        let after = tags_for(lines, name);
        if says_held(lines, name, tag) {
            let i = choose|i: int|
                0 <= i < lines.len() && two_fields(#[trigger] lines[i]) == Some((name, tag));
            if i < n {
                assert(two_fields(rest[i]) == Some((name, tag)));
                let k = choose|k: int| 0 <= k < before.len() && before[k] == tag;
                assert(after[k] == tag);
            } else {
                assert(after[before.len() as int] == tag);
            }
        }
        if after.contains(tag) {
            let k = choose|k: int| 0 <= k < after.len() && after[k] == tag;
            if k < before.len() {
                assert(before[k] == tag);
                let i = choose|i: int|
                    0 <= i < rest.len() && two_fields(#[trigger] rest[i]) == Some((name, tag));
                assert(two_fields(lines[i]) == Some((name, tag)));
            } else {
                assert(two_fields(lines[n]) == Some((name, tag)));
            }
        }
    }
}

proof fn lemma_filtered(s: Seq<Seq<char>>, f: spec_fn(Seq<char>) -> bool, x: Seq<char>)
    ensures
        s.filter(f).contains(x) <==> s.contains(x) && f(x),
{
    if s.filter(f).contains(x) {
        let k = choose|k: int| 0 <= k < s.filter(f).len() && s.filter(f)[k] == x;
        s.lemma_filter_pred(f, k);
        s.lemma_filter_contains_rev(f, x);
    }
    if s.contains(x) && f(x) {
        let k = choose|k: int| 0 <= k < s.len() && s[k] == x;
        s.lemma_filter_contains(f, k);
    }
}

proof fn lemma_none_filtered(s: Seq<Seq<char>>, f: spec_fn(Seq<char>) -> bool)
    ensures
        s.filter(f).len() == 0 <==> forall|x: Seq<char>| #[trigger] s.contains(x) ==> !f(x),
{
    if s.filter(f).len() > 0 {
        let x = s.filter(f)[0];
        assert(s.filter(f).contains(x));
        lemma_filtered(s, f, x);
    } else {
        assert forall|x: Seq<char>| #[trigger] s.contains(x) implies !f(x) by {
            lemma_filtered(s, f, x);
        }
    }
}

/// Of a list of tags, the transfer holds are those that start with `zrb:`.
pub proof fn transfer_holds_start_alike(tags: Seq<Seq<char>>, tag: Seq<char>)
    ensures
        tags.filter(is_transfer_hold()).contains(tag) <==> tags.contains(tag) && exists|
            rest: Seq<char>,
        |
            tag == #[trigger] ("zrb:"@ + rest),
{
    lemma_filtered(tags, is_transfer_hold(), tag);
    prefix_stands_in_front(tag, "zrb:"@);
}

/// A candidate is to be deleted exactly where the table gives no tag for it that starts
/// with `zrb:`; and it is listed with each such tag that the table gives for it.
pub proof fn candidates_are_parted_by_their_holds(
    candidates: Seq<Seq<char>>,
    table: Seq<(String, Vec<String>)>,
    name: Seq<char>,
    tag: Seq<char>,
)
    ensures
        candidates.filter(unprotected(table)).contains(name) <==> candidates.contains(name) && (
        forall|t: Seq<char>| #[trigger]
            held_tags(table, name).contains(t) ==> !has_prefix(t, "zrb:"@)),
        protected_of(candidates, table).contains((name, tag)) <==> candidates.contains(name)
            && held_tags(table, name).contains(tag) && has_prefix(tag, "zrb:"@),
{
    lemma_filtered(candidates, unprotected(table), name);
    lemma_none_filtered(held_tags(table, name), is_transfer_hold());
    lemma_protected(candidates, table, name, tag);
}

proof fn lemma_protected(
    candidates: Seq<Seq<char>>,
    table: Seq<(String, Vec<String>)>,
    name: Seq<char>,
    tag: Seq<char>,
)
    ensures
        protected_of(candidates, table).contains((name, tag)) <==> candidates.contains(name)
            && held_tags(table, name).contains(tag) && has_prefix(tag, "zrb:"@),
    decreases candidates.len(),
{
    if candidates.len() > 0 {
        let rest = candidates.drop_last();
        let last = candidates.last();
        let tags = held_tags(table, last).filter(is_transfer_hold());
        lemma_protected(rest, table, name, tag);
        lemma_filtered(held_tags(table, last), is_transfer_hold(), tag);
        lemma_with_each(protected_of(rest, table), last, tags, name, tag);
        lemma_contains_last(candidates, name);
    }
}

proof fn lemma_with_each(
    before: Seq<(Seq<char>, Seq<char>)>,
    last: Seq<char>,
    tags: Seq<Seq<char>>,
    name: Seq<char>,
    tag: Seq<char>,
)
    ensures
        (before + with_each(last, tags)).contains((name, tag)) <==> before.contains((name, tag))
            || (name == last && tags.contains(tag)),
{
    let each = with_each(last, tags);
    let all = before + each;
    if all.contains((name, tag)) {
        let k = choose|k: int| 0 <= k < all.len() && all[k] == (name, tag);
        if k < before.len() {
            assert(before[k] == (name, tag));
        } else {
            assert(each[k - before.len()] == (name, tag));
            assert(tags[k - before.len()] == tag);
        }
    }
    if before.contains((name, tag)) {
        let k = choose|k: int| 0 <= k < before.len() && before[k] == (name, tag);
        assert(all[k] == (name, tag));
    }
    if name == last && tags.contains(tag) {
        let k = choose|k: int| 0 <= k < tags.len() && tags[k] == tag;
        assert(each[k] == (name, tag));
        assert(all[before.len() + k] == (name, tag));
    }
}

proof fn lemma_contains_last(s: Seq<Seq<char>>, x: Seq<char>)
    requires
        s.len() > 0,
    ensures
        s.contains(x) <==> s.drop_last().contains(x) || s.last() == x,
{
    let rest = s.drop_last();
    if s.contains(x) {
        let k = choose|k: int| 0 <= k < s.len() && s[k] == x;
        if k < rest.len() {
            assert(rest[k] == x);
        }
    }
    if rest.contains(x) {
        let k = choose|k: int| 0 <= k < rest.len() && rest[k] == x;
        assert(s[k] == x);
    }
}

proof fn lemma_held_back(
    candidates: Seq<Seq<char>>,
    holds: Seq<Seq<char>>,
    name: Seq<char>,
    tag: Seq<char>,
)
    ensures
        held_back(candidates, holds).contains((name, tag)) <==> candidates.contains(name)
            && says_held(holds, name, tag) && has_prefix(tag, "zrb:"@),
    decreases candidates.len(),
{
    if candidates.len() > 0 {
        let rest = candidates.drop_last();
        let last = candidates.last();
        let tags = tags_for(holds, last).filter(is_transfer_hold());
        lemma_held_back(rest, holds, name, tag);
        lemma_filtered(tags_for(holds, last), is_transfer_hold(), tag);
        tags_stand_on_lines(holds, last, tag);
        lemma_with_each(held_back(rest, holds), last, tags, name, tag);
        lemma_contains_last(candidates, name);
    }
}

// ---------------------------------------------------------------------------
// Whole runs
// ---------------------------------------------------------------------------

/// A run that comes to a result was held up exactly where the pool has a token, none is to
/// be given up, and the configured days have not passed since the note. It then keeps,
/// gives up and destroys nothing.
#[verifier::rlimit(40)]
pub proof fn runs_are_held_up_by_pending_transfers(
    prune: Prune,
    answers: Answers,
    steps: Seq<PruneStep>,
    result: PruneResult,
    token: String,
    since: String,
)
    requires
        is_run(prune, steps),
        forall|i: int| 0 <= i < steps.len() ==> hears(#[trigger] steps[i], answers),
        steps.len() > 0,
        steps.last().action == PruneAction::Done(Ok(result)),
        answers.token == Ok::<String, ClientError>(token),
        answers.since == Ok::<String, ClientError>(since),
    ensures
        result.resume_skipped <==> is_waited_for(
            prune,
            !(trimmed(token@) == "-"@ || trimmed(token@) == "none"@),
            since_of(trimmed(since@)),
            answers.now,
        ),
        result.resume_skipped ==> result.kept@.len() == 0 && result.deleted@.len() == 0
            && result.hold_skipped@.len() == 0 && destroyed(steps).len() == 0,
{
    lemma_run_so_far(prune, answers, steps);
    assert(kept_texts(result.kept@).len() == result.kept@.len());
    assert(texts(result.deleted@).len() == result.deleted@.len());
    assert(pair_texts(result.hold_skipped@).len() == result.hold_skipped@.len());
}

/// A run that comes to a result and was not held up keeps what the policy keeps of the
/// managed snapshots that the pool has. Of what the policy gives up it destroys exactly
/// those on which no line of the list of holds puts a tag that starts with `zrb:`; it
/// lists the others, with each such tag. A dry run gives the same and destroys nothing.
#[verifier::rlimit(40)]
pub proof fn runs_destroy_what_the_policy_gives_up_and_nothing_holds(
    prune: Prune,
    answers: Answers,
    steps: Seq<PruneStep>,
    result: PruneResult,
    listed: String,
    held: String,
    name: Seq<char>,
    tag: Seq<char>,
)
    requires
        is_run(prune, steps),
        forall|i: int| 0 <= i < steps.len() ==> hears(#[trigger] steps[i], answers),
        steps.len() > 0,
        steps.last().action == PruneAction::Done(Ok(result)),
        !result.resume_skipped,
        answers.list == Ok::<String, ClientError>(listed),
        answers.holds == Ok::<String, ClientError>(held),
    ensures
        ({
            let snapshots = listing(lines_of(listed@).filter_map(listed_name()));
            let given_up = policy_deletes(snapshots, answers.now, prune.config);
            &&& kept_texts(result.kept@) == policy_keeps(snapshots, answers.now, prune.config)
            &&& texts(result.deleted@).contains(name) <==> given_up.contains(name) && forall|
                t: Seq<char>,
            | #[trigger]
                says_held(lines_of(held@), name, t) ==> !has_prefix(t, "zrb:"@)
            &&& pair_texts(result.hold_skipped@).contains((name, tag)) <==> given_up.contains(name)
                && says_held(lines_of(held@), name, tag) && has_prefix(tag, "zrb:"@)
            &&& destroyed(steps) == if prune.dry_run {
                Seq::<Seq<char>>::empty()
            } else {
                texts(result.deleted@)
            }
        }),
{
    lemma_run_so_far(prune, answers, steps);
    let candidates = policy_parts(prune, answers).1;
    let lines = lines_of(held@);
    if candidates.len() > 0 {
        lemma_filtered(candidates, without_holds(lines), name);
        lemma_none_filtered(tags_for(lines, name), is_transfer_hold());
        assert((forall|t: Seq<char>| #[trigger]
            says_held(lines, name, t) ==> !has_prefix(t, "zrb:"@)) <==> without_holds(lines)(
            name,
        )) by {
            if without_holds(lines)(name) {
                assert forall|t: Seq<char>| #[trigger] says_held(lines, name, t) implies !has_prefix(
                    t,
                    "zrb:"@,
                ) by {
                    tags_stand_on_lines(lines, name, t);
                    assert(tags_for(lines, name).contains(t));
                }
            }
            if forall|t: Seq<char>| #[trigger]
                says_held(lines, name, t) ==> !has_prefix(t, "zrb:"@) {
                assert forall|t: Seq<char>| #[trigger]
                    tags_for(lines, name).contains(t) implies !is_transfer_hold()(t) by {
                    tags_stand_on_lines(lines, name, t);
                }
            }
        }
        lemma_held_back(candidates, lines, name, tag);
    }
    assert(destroyed(steps) =~= if prune.dry_run {
        Seq::<Seq<char>>::empty()
    } else {
        texts(result.deleted@)
    });
}

/// Pruning begins with what it is given, and asks for the token on the dataset first.
pub proof fn runs_begin_with_what_they_are_given(
    dataset: Seq<char>,
    config: RetentionConfig,
    hold_days: Option<u32>,
    dry_run: bool,
    abort_resume: bool,
    prune: Prune,
    state: PruneState,
    action: PruneAction,
)
    requires
        begins(dataset, config, hold_days, dry_run, abort_resume, prune, state, action),
    ensures
        prune.dataset@ == dataset,
        prune.config == config,
        prune.hold_days == hold_days,
        prune.dry_run == dry_run,
        prune.abort_resume == abort_resume,
        state is AwaitToken,
        action matches PruneAction::Run(ZfsCommand::GetResumeToken { dataset: d }) && d@ == dataset,
{
}

/// A dataset that is not there has no token, no note and no snapshots: pruning it goes on,
/// and ends with nothing kept or gone.
pub proof fn absent_datasets_have_nothing(
    prune: Prune,
    state: PruneState,
    e: ClientError,
    now: Timestamp,
    next: PruneState,
    action: PruneAction,
)
    requires
        prune_step(prune, state, Err(e), now, next, action),
        says_not_found(e),
    ensures
        match state {
            PruneState::AwaitToken => next == (PruneState::AwaitSince { has_token: false }),
            PruneState::AwaitSince { has_token: false } => next is AwaitList,
            PruneState::AwaitList => match action {
                PruneAction::Done(Ok(r)) => r.kept@.len() == 0 && r.deleted@.len() == 0
                    && r.hold_skipped@.len() == 0 && !r.resume_skipped,
                _ => false,
            },
            PruneState::AwaitSince { .. } => true,
            _ => action == PruneAction::Done(Err(e)),
        },
{
    if state is AwaitList {
        let none = Seq::<Seq<char>>::empty();
        let all = listing(none);
        assert(all.len() == 0) by {
            reveal(Seq::filter);
            time_order_is_a_stable_sort(none.filter(managed()));
        }
        assert(policy_deletes(all, now, prune.config).len() == 0);
        assert(policy_keeps(all, now, prune.config).len() == 0);
        if let PruneAction::Done(Ok(r)) = action {
            assert(kept_texts(r.kept@).len() == r.kept@.len());
            assert(texts(r.deleted@).len() == r.deleted@.len());
            assert(pair_texts(r.hold_skipped@).len() == r.hold_skipped@.len());
        }
    }
}

} // verus!
