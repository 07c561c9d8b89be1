//! Names of snapshots and their order.

use crate::ops::list::listing;
use crate::snapshot::naming::{
    in_time_order, managed, name_at, stamp, stamped, time_order_is_a_stable_sort,
};
use crate::text::{cut, lemma_cut, lemma_cut_join};
use crate::time::{formatted_instant, rfc3339_instant, Timestamp, TIMESTAMP_FMT};
use vstd::prelude::*;
use vstd::string::*;

verus! {

/// A name is managed exactly where it is a dataset, `@zrb-`, and a text that is read as
/// an instant; it carries that instant.
pub proof fn managed_names_have_one_form(name: Seq<char>, t: Timestamp)
    ensures
        stamp(name) == Some(t) <==> exists|dataset: Seq<char>, text: Seq<char>|
            #![trigger dataset.push('@') + ("zrb-"@ + text)]
            !dataset.contains('@') && name == dataset.push('@') + ("zrb-"@ + text)
                && rfc3339_instant(text) == Some((t.secs, t.nanos)),
{
    let prefix = "zrb-"@;
    if stamp(name) == Some(t) {
        lemma_cut(name, '@');
        let (d, snap) = cut(name, '@')->0;
        let text = snap.skip(prefix.len() as int);
        assert(snap =~= prefix + text);
        assert(name == d.push('@') + (prefix + text));
    }
    if exists|dataset: Seq<char>, text: Seq<char>|
        #![trigger dataset.push('@') + ("zrb-"@ + text)]
        !dataset.contains('@') && name == dataset.push('@') + ("zrb-"@ + text) && rfc3339_instant(
            text,
        ) == Some((t.secs, t.nanos)) {
        let (dataset, text) = choose|dataset: Seq<char>, text: Seq<char>|
            #![trigger dataset.push('@') + ("zrb-"@ + text)]
            !dataset.contains('@') && name == dataset.push('@') + ("zrb-"@ + text)
                && rfc3339_instant(text) == Some((t.secs, t.nanos));
        let snap = prefix + text;
        lemma_cut_join(dataset, '@', snap);
        assert(snap.subrange(0, prefix.len() as int) =~= prefix);
        assert(snap.skip(prefix.len() as int) =~= text);
    }
}

/// A new name is the dataset, `@zrb-`, and the instant as it is formatted.
pub proof fn new_names_say_dataset_and_time(dataset: Seq<char>, now: Timestamp)
    ensures
        name_at(dataset, now) == dataset.push('@') + ("zrb-"@ + formatted_instant(
            now.secs,
            now.nanos,
            TIMESTAMP_FMT@,
        )),
{
    assert(name_at(dataset, now) =~= dataset.push('@') + ("zrb-"@ + formatted_instant(
        now.secs,
        now.nanos,
        TIMESTAMP_FMT@,
    )));
}

/// Whether `a` is not later than `b`, second by second and then by nanoseconds.
pub open spec fn not_later(a: Timestamp, b: Timestamp) -> bool {
    a.secs < b.secs || (a.secs == b.secs && a.nanos <= b.nanos)
}

/// Ordered by time, a name without an instant stands before one with, and of two with
/// one the later does not stand first. No name is lost or added. Names of one instant,
/// or of none, stand as they stood.
pub proof fn names_are_ordered_by_instant(names: Seq<Seq<char>>, t: Option<Timestamp>)
    ensures
        forall|i: int, j: int|
            0 <= i < j < in_time_order(names).len() ==> match (
                stamp(#[trigger] in_time_order(names)[i]),
                stamp(#[trigger] in_time_order(names)[j]),
            ) {
                (Some(a), Some(b)) => not_later(a, b),
                (Some(_), None) => false,
                (None, _) => true,
            },
        in_time_order(names).to_multiset() == names.to_multiset(),
        in_time_order(names).filter(|name: Seq<char>| stamp(name) == t) == names.filter(
            |name: Seq<char>| stamp(name) == t,
        ),
{
    time_order_is_a_stable_sort(names);
    let f = |name: Seq<char>| stamp(name) == t;
    assert(f =~= stamped(t));
}

/// A listing holds the managed names, each as often as it was given, and no others; the
/// later of two does not stand first.
pub proof fn listings_hold_the_managed_names(raw: Seq<Seq<char>>, name: Seq<char>)
    ensures
        listing(raw).to_multiset().count(name) == if stamp(name) is Some {
            raw.to_multiset().count(name)
        } else {
            0
        },
        forall|i: int, j: int|
            0 <= i < j < listing(raw).len() ==> match (
                stamp(#[trigger] listing(raw)[i]),
                stamp(#[trigger] listing(raw)[j]),
            ) {
                (Some(a), Some(b)) => not_later(a, b),
                _ => false,
            },
        forall|i: int| 0 <= i < listing(raw).len() ==> stamp(#[trigger] listing(raw)[i]) is Some,
{
    broadcast use vstd::seq_lib::group_to_multiset_ensures;

    let f = managed();
    names_are_ordered_by_instant(raw.filter(f), None);
    lemma_filter_counts(raw, f, name);
    let all = listing(raw);
    assert forall|i: int| 0 <= i < all.len() implies stamp(#[trigger] all[i]) is Some by {
        assert(all.to_multiset().count(all[i]) > 0);
        assert(raw.filter(f).contains(all[i]));
        let k = choose|k: int| 0 <= k < raw.filter(f).len() && raw.filter(f)[k] == all[i];
        raw.lemma_filter_pred(f, k);
    }
}

proof fn lemma_filter_counts(s: Seq<Seq<char>>, f: spec_fn(Seq<char>) -> bool, x: Seq<char>)
    ensures
        s.filter(f).to_multiset().count(x) == if f(x) {
            s.to_multiset().count(x)
        } else {
            0
        },
    decreases s.len(),
{
    broadcast use vstd::seq_lib::group_to_multiset_ensures;

    reveal(Seq::filter);
    if s.len() > 0 {
        let rest = s.drop_last();
        lemma_filter_counts(rest, f, x);
        assert(s =~= rest.push(s.last()));
    }
}

} // verus!
