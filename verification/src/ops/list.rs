//! Which managed snapshots there are.

use crate::snapshot::naming::{
    chronological, filter_zrb, has_single_at, in_time_order, managed, sort_chronological, stamp,
    time_order_is_a_stable_sort,
};
use crate::text::{has_prefix, lemma_texts_push, starts_with, str_eq, texts};
use vstd::prelude::*;
use vstd::string::*;

verus! {

/// The managed ones of `raw`, oldest first.
pub open spec fn listing(raw: Seq<Seq<char>>) -> Seq<Seq<char>> {
    in_time_order(raw.filter(managed()))
}

/// The managed snapshots among `raw`, the names that `zfs list` gave, oldest
/// first. Others are left out.
pub fn list(raw: &[String]) -> (r: Vec<String>)
    ensures
        texts(r@) == listing(texts(raw@)),
        chronological(texts(r@)),
        forall|i: int| 0 <= i < r@.len() ==> stamp((#[trigger] r@[i])@) is Some,
        forall|i: int| 0 <= i < r@.len() ==> has_single_at((#[trigger] r@[i])@),
{
    let mut names = filter_zrb(raw);
    let ghost found = names@;
    sort_chronological(&mut names);
    proof {
        listing_is_managed_and_in_order(texts(raw@));
        assert forall|i: int| 0 <= i < names@.len() implies stamp((#[trigger] names@[i])@) is Some
            && has_single_at(names@[i]@) by {
            broadcast use vstd::seq_lib::group_to_multiset_ensures;

            let sorted = texts(names@);
            let kept = texts(found);
            assert(sorted[i] == names@[i]@);
            assert(sorted.contains(sorted[i]));
            assert(sorted.to_multiset().count(sorted[i]) > 0);
            assert(kept.contains(sorted[i]));
            let k = choose|k: int| 0 <= k < kept.len() && kept[k] == sorted[i];
            assert(found[k]@ == sorted[i]);
        }
    }
    names
}

/// A listing holds managed snapshots alone, each as often as it was named, and the
/// oldest first.
pub proof fn listing_is_managed_and_in_order(raw: Seq<Seq<char>>)
    ensures
        chronological(listing(raw)),
        listing(raw).to_multiset() == raw.filter(managed()).to_multiset(),
        forall|i: int| 0 <= i < listing(raw).len() ==> stamp(#[trigger] listing(raw)[i]) is Some,
{
    broadcast use vstd::seq_lib::group_to_multiset_ensures;

    let kept = raw.filter(managed());
    let sorted = listing(raw);
    time_order_is_a_stable_sort(kept);
    assert forall|i: int| 0 <= i < sorted.len() implies stamp(#[trigger] sorted[i]) is Some by {
        assert(sorted.contains(sorted[i]));
        assert(sorted.to_multiset().count(sorted[i]) > 0);
        assert(kept.contains(sorted[i]));
        let k = choose|k: int| 0 <= k < kept.len() && kept[k] == sorted[i];
        kept_is_managed(raw, k);
    }
}

proof fn kept_is_managed(raw: Seq<Seq<char>>, k: int)
    requires
        0 <= k < raw.filter(managed()).len(),
    ensures
        stamp(raw.filter(managed())[k]) is Some,
{
    raw.lemma_filter_pred(managed(), k);
    assert(managed()(raw.filter(managed())[k]));
}

/// The predicate that picks `root` and the datasets below it.
pub open spec fn in_subtree(root: Seq<char>) -> spec_fn(Seq<char>) -> bool {
    |ds: Seq<char>| ds == root || has_prefix(ds, root + "/"@)
}

/// The ones of `datasets` that are `root` or below it.
pub fn datasets_matching(datasets: &[String], root: &str) -> (r: Vec<String>)
    ensures
        texts(r@) == texts(datasets@).filter(in_subtree(root@)),
{
    let prefix = root.to_owned().concat("/");
    let mut out: Vec<String> = Vec::new();
    let mut i: usize = 0;
    let ghost f = in_subtree(root@);
    proof {
        reveal(Seq::filter);
        assert(texts(datasets@).take(0) =~= seq![]);
        assert(texts(out@) =~= texts(datasets@).take(0).filter(f));
    }
    while i < datasets.len()
        invariant
            i <= datasets@.len(),
            prefix@ == root@ + "/"@,
            f == in_subtree(root@),
            texts(out@) == texts(datasets@).take(i as int).filter(f),
        decreases datasets@.len() - i,
    {
        let ds = &datasets[i];
        proof {
            reveal(Seq::filter);
            let all = texts(datasets@);
            assert(all.take(i + 1).drop_last() =~= all.take(i as int));
            assert(all.take(i + 1).last() == ds@);
            lemma_texts_push(out@, *ds);
        }
        if str_eq(ds.as_str(), root) || starts_with(ds.as_str(), prefix.as_str()) {
            out.push(ds.clone());
        }
        i = i + 1;
    }
    assert(texts(datasets@).take(datasets@.len() as int) =~= texts(datasets@));
    out
}

/// A dataset whose name merely begins like `root`, with no `/` behind it, is not
/// below `root`.
pub proof fn like_named_is_not_below(root: Seq<char>, rest: Seq<char>)
    requires
        rest.len() > 0,
        rest[0] != '/',
    ensures
        !in_subtree(root)(root + rest),
{
    reveal_strlit("/");
    let ds = root + rest;
    assert(ds.len() != root.len());
    if has_prefix(ds, root + "/"@) {
        let p = root + "/"@;
        assert(ds.subrange(0, p.len() as int)[root.len() as int] == ds[root.len() as int]);
        assert(p[root.len() as int] == '/');
    }
}

/// What each of `datasets` holds: its name, and its managed snapshots oldest
/// first.
pub open spec fn groups_of(datasets: Seq<Seq<char>>, raw: Seq<Seq<Seq<char>>>) -> Seq<
    (Seq<char>, Seq<Seq<char>>),
> {
    Seq::new(datasets.len(), |i: int| (datasets[i], listing(raw[i])))
}

/// The texts of a list of datasets with their snapshots.
pub open spec fn group_texts(v: Seq<(String, Vec<String>)>) -> Seq<(Seq<char>, Seq<Seq<char>>)> {
    v.map_values(|e: (String, Vec<String>)| (e.0@, texts(e.1@)))
}

/// The texts of lists of names.
pub open spec fn name_lists(v: Seq<Vec<String>>) -> Seq<Seq<Seq<char>>> {
    v.map_values(|e: Vec<String>| texts(e@))
}

/// The managed snapshots of every dataset, grouped. `datasets` is what
/// `zfs::client::discover_datasets` found, and `raw` the names that `zfs list` gave
/// for each.
pub fn list_all(datasets: Vec<String>, raw: &Vec<Vec<String>>) -> (r: Vec<(String, Vec<String>)>)
    requires
        datasets@.len() == raw@.len(),
    ensures
        group_texts(r@) == groups_of(texts(datasets@), name_lists(raw@)),
{
    let mut out: Vec<(String, Vec<String>)> = Vec::new();
    let mut i: usize = 0;
    let ghost all = groups_of(texts(datasets@), name_lists(raw@));
    assert(group_texts(out@) =~= all.take(0));
    while i < datasets.len()
        invariant
            i <= datasets@.len(),
            datasets@.len() == raw@.len(),
            all == groups_of(texts(datasets@), name_lists(raw@)),
            group_texts(out@) == all.take(i as int),
        decreases datasets@.len() - i,
    {
        let snaps = list(raw[i].as_slice());
        let ghost before = out@;
        out.push((datasets[i].clone(), snaps));
        proof {
            assert(name_lists(raw@)[i as int] == texts(raw@[i as int]@));
            assert(group_texts(out@) =~= group_texts(before).push(
                (datasets@[i as int]@, listing(texts(raw@[i as int]@))),
            ));
            assert(all.take(i + 1) =~= all.take(i as int).push(all[i as int]));
        }
        i = i + 1;
    }
    assert(all.take(datasets@.len() as int) =~= all);
    out
}

/// The managed snapshots of `root` and the datasets below it, grouped.
/// `discovered` is what `zfs::client::discover_datasets` found, and `raw` the names
/// that `zfs list` gave for each that [`datasets_matching`] picks.
pub fn list_recursive(discovered: &[String], root: &str, raw: &Vec<Vec<String>>) -> (r: Vec<
    (String, Vec<String>),
>)
    requires
        raw@.len() == texts(discovered@).filter(in_subtree(root@)).len(),
    ensures
        group_texts(r@) == groups_of(
            texts(discovered@).filter(in_subtree(root@)),
            name_lists(raw@),
        ),
{
    let datasets = datasets_matching(discovered, root);
    list_all(datasets, raw)
}

} // verus!
