//! Names of managed snapshots: `<dataset>@zrb-<timestamp>`.

use crate::text::{
    cut, has_prefix, lemma_cut, lemma_cut_join, lemma_texts_push, split_once, strip_prefix, texts,
};
use crate::time::{
    format_utc, formatted_instant, parse_rfc3339, rfc3339_instant, Timestamp, TIMESTAMP_FMT,
};
use vstd::prelude::*;
use vstd::string::*;

verus! {

/// What the snapshot part of a managed name begins with.
pub const PREFIX: &'static str = "zrb-";

/// The instant a managed name carries; nothing for any other name.
pub open spec fn stamp(name: Seq<char>) -> Option<Timestamp> {
    match cut(name, '@') {
        Some((_, snap)) => if has_prefix(snap, PREFIX@) {
            match rfc3339_instant(snap.skip(PREFIX@.len() as int)) {
                Some((secs, nanos)) => Some(Timestamp { secs, nanos }),
                None => None,
            }
        } else {
            None
        },
        None => None,
    }
}

/// The name a snapshot of `dataset` taken at `now` gets.
pub open spec fn name_at(dataset: Seq<char>, now: Timestamp) -> Seq<char> {
    dataset + seq!['@'] + PREFIX@ + formatted_instant(now.secs, now.nanos, TIMESTAMP_FMT@)
}

/// The name of a snapshot of `dataset` taken at `now`. In a four-digit year it
/// reads back as `now` without its fraction of a second, where `dataset` itself
/// holds no `@`.
pub fn new_name(dataset: &str, now: Timestamp) -> (r: String)
    requires
        now.valid(),
    ensures
        r@ == name_at(dataset@, now),
        now.four_digit_year() && !dataset@.contains('@') ==> stamp(r@) == Some(now.whole_second()),
{
    let mut name = dataset.to_owned();
    name.push('@');
    name.append(PREFIX);
    let time = format_utc(now, TIMESTAMP_FMT);
    name.append(time.as_str());
    assert(name@ =~= name_at(dataset@, now));
    proof {
        if !dataset@.contains('@') {
            let snap = PREFIX@ + time@;
            assert(name@ =~= dataset@.push('@') + snap);
            lemma_cut_join(dataset@, '@', snap);
            assert(snap.subrange(0, PREFIX@.len() as int) =~= PREFIX@);
            assert(snap.skip(PREFIX@.len() as int) =~= time@);
        }
    }
    name
}

/// The instant a managed name carries. A name that carries one holds a single
/// `@`.
pub fn parse(name: &str) -> (r: Option<Timestamp>)
    ensures
        r == stamp(name@),
        r is Some ==> r->0.valid(),
        r is Some ==> has_single_at(name@),
{
    match split_once(name, '@') {
        Some((dataset, snap)) => match strip_prefix(snap.as_str(), PREFIX) {
            Some(time) => {
                let r = parse_rfc3339(time.as_str());
                proof {
                    lemma_cut(name@, '@');
                    if r is Some {
                        reveal_strlit("zrb-");
                        assert(snap@ =~= PREFIX@ + time@);
                        assert forall|i: int| 0 <= i < snap@.len() implies snap@[i] != '@' by {
                            if i >= 4 {
                                assert(time@[i - 4] == snap@[i]);
                                assert(time@.contains(snap@[i]));
                            } else {
                                assert(snap@[i] == PREFIX@[i]);
                            }
                        }
                        assert(!snap@.contains('@'));
                    }
                }
                r
            },
            None => None,
        },
        None => None,
    }
}

/// Whether `name` has exactly one `@`.
pub open spec fn has_single_at(name: Seq<char>) -> bool {
    match cut(name, '@') {
        Some((_, rest)) => !rest.contains('@'),
        None => false,
    }
}

/// Whether `name` is that of a managed snapshot.
pub fn is_zrb(name: &str) -> (r: bool)
    ensures
        r == (stamp(name@) is Some),
        r ==> has_single_at(name@),
{
    parse(name).is_some()
}

/// The predicate that picks managed names.
pub open spec fn managed() -> spec_fn(Seq<char>) -> bool {
    |name: Seq<char>| stamp(name) is Some
}

/// The managed names among `names`, in the order they stand.
pub fn filter_zrb(names: &[String]) -> (r: Vec<String>)
    ensures
        texts(r@) == texts(names@).filter(managed()),
        forall|i: int| 0 <= i < r@.len() ==> has_single_at(#[trigger] r@[i]@),
{
    let mut out: Vec<String> = Vec::new();
    let mut i: usize = 0;
    proof {
        assert(texts(names@).take(0) =~= Seq::empty());
        reveal(Seq::filter);
        assert(texts(out@) =~= texts(names@).take(0).filter(managed()));
    }
    while i < names.len()
        invariant
            i <= names@.len(),
            texts(out@) == texts(names@).take(i as int).filter(managed()),
            forall|j: int| 0 <= j < out@.len() ==> has_single_at(#[trigger] out@[j]@),
        decreases names@.len() - i,
    {
        let name = &names[i];
        let ghost before = out@;
        proof {
            reveal(Seq::filter);
            let all = texts(names@);
            assert(all.take(i + 1).drop_last() =~= all.take(i as int));
            assert(all.take(i + 1).last() == name@);
        }
        if is_zrb(name.as_str()) {
            proof {
                lemma_texts_push(before, *name);
            }
            out.push(name.clone());
        }
        i = i + 1;
    }
    assert(texts(names@).take(names@.len() as int) =~= texts(names@));
    out
}

// ---------------------------------------------------------------------------
// Order of time
// ---------------------------------------------------------------------------

/// Order of stamps: a name without one comes before all others.
pub open spec fn stamp_le(a: Option<Timestamp>, b: Option<Timestamp>) -> bool {
    match (a, b) {
        (None, _) => true,
        (Some(_), None) => false,
        (Some(x), Some(y)) => !y.before(x),
    }
}

/// `entries`, sorted oldest first, with `e` put behind all that are not later. `key`
/// gives the instant of each.
pub open spec fn insert_by_time<E>(
    entries: Seq<E>,
    e: E,
    key: spec_fn(E) -> Option<Timestamp>,
) -> Seq<E>
    decreases entries.len(),
{
    if entries.len() == 0 || stamp_le(key(entries.last()), key(e)) {
        entries.push(e)
    } else {
        insert_by_time(entries.drop_last(), e, key).push(entries.last())
    }
}

/// `entries` oldest first; those of one instant keep the order they stand in.
pub open spec fn ordered_by_time<E>(entries: Seq<E>, key: spec_fn(E) -> Option<Timestamp>) -> Seq<
    E,
>
    decreases entries.len(),
{
    if entries.len() == 0 {
        entries
    } else {
        insert_by_time(ordered_by_time(entries.drop_last(), key), entries.last(), key)
    }
}

/// Whether `entries` stand oldest first.
pub open spec fn oldest_first<E>(entries: Seq<E>, key: spec_fn(E) -> Option<Timestamp>) -> bool {
    forall|i: int, j: int|
        0 <= i < j < entries.len() ==> stamp_le(
            key(#[trigger] entries[i]),
            key(#[trigger] entries[j]),
        )
}

/// The predicate that picks the entries of one instant.
pub open spec fn keyed<E>(key: spec_fn(E) -> Option<Timestamp>, t: Option<Timestamp>) -> spec_fn(
    E,
) -> bool {
    |e: E| key(e) == t
}

proof fn lemma_insert_oldest_first<E>(entries: Seq<E>, e: E, key: spec_fn(E) -> Option<Timestamp>)
    requires
        oldest_first(entries, key),
    ensures
        oldest_first(insert_by_time(entries, e, key), key),
        insert_by_time(entries, e, key).len() == entries.len() + 1,
        insert_by_time(entries, e, key).to_multiset() == entries.to_multiset().insert(e),
        forall|x: E| #[trigger]
            insert_by_time(entries, e, key).contains(x) ==> x == e || entries.contains(x),
    decreases entries.len(),
{
    broadcast use vstd::seq_lib::group_to_multiset_ensures;

    let r = insert_by_time(entries, e, key);
    if entries.len() == 0 || stamp_le(key(entries.last()), key(e)) {
        assert forall|i: int, j: int| 0 <= i < j < r.len() implies stamp_le(
            key(#[trigger] r[i]),
            key(#[trigger] r[j]),
        ) by {
            if j == entries.len() && i < entries.len() - 1 {
                assert(stamp_le(key(entries[i]), key(entries[entries.len() - 1])));
            }
        }
        assert forall|x: E| #[trigger] r.contains(x) implies x == e || entries.contains(x) by {
            let i = choose|i: int| 0 <= i < r.len() && r[i] == x;
            if i < entries.len() {
                assert(entries[i] == x);
            }
        }
    } else {
        let rest = entries.drop_last();
        lemma_insert_oldest_first(rest, e, key);
        let inner = insert_by_time(rest, e, key);
        assert forall|i: int, j: int| 0 <= i < j < r.len() implies stamp_le(
            key(#[trigger] r[i]),
            key(#[trigger] r[j]),
        ) by {
            if j == inner.len() {
                assert(inner.contains(inner[i]));
                if inner[i] != e {
                    let k = choose|k: int| 0 <= k < rest.len() && rest[k] == inner[i];
                    assert(entries[k] == inner[i]);
                }
            }
        }
        assert(entries =~= rest.push(entries.last()));
        assert(r.to_multiset() =~= entries.to_multiset().insert(e));
        assert forall|x: E| #[trigger] r.contains(x) implies x == e || entries.contains(x) by {
            let i = choose|i: int| 0 <= i < r.len() && r[i] == x;
            if i < inner.len() {
                assert(inner.contains(x));
                if x != e {
                    let k = choose|k: int| 0 <= k < rest.len() && rest[k] == x;
                    assert(entries[k] == x);
                }
            } else {
                assert(entries[entries.len() - 1] == x);
            }
        }
    }
}

proof fn lemma_insert_keeps_order<E>(
    entries: Seq<E>,
    e: E,
    key: spec_fn(E) -> Option<Timestamp>,
    t: Option<Timestamp>,
)
    requires
        oldest_first(entries, key),
    ensures
        insert_by_time(entries, e, key).filter(keyed(key, t)) == entries.push(e).filter(
            keyed(key, t),
        ),
    decreases entries.len(),
{
    reveal(Seq::filter);
    let r = insert_by_time(entries, e, key);
    assert(entries.push(e).drop_last() =~= entries);
    if entries.len() == 0 || stamp_le(key(entries.last()), key(e)) {
    } else {
        let rest = entries.drop_last();
        lemma_insert_keeps_order(rest, e, key, t);
        let inner = insert_by_time(rest, e, key);
        assert(r.drop_last() =~= inner);
        assert(rest.push(e).drop_last() =~= rest);
        assert(key(entries.last()) != key(e));
        let f = keyed(key, t);
        assert(entries.filter(f) == if f(entries.last()) {
            rest.filter(f).push(entries.last())
        } else {
            rest.filter(f)
        });
        assert(rest.push(e).filter(f) == if f(e) {
            rest.filter(f).push(e)
        } else {
            rest.filter(f)
        });
    }
}

/// Ordering by time puts the oldest first, keeps every entry as often as it stands,
/// and leaves those of one instant in the order they stood.
pub proof fn ordering_is_a_stable_sort<E>(entries: Seq<E>, key: spec_fn(E) -> Option<Timestamp>)
    ensures
        oldest_first(ordered_by_time(entries, key), key),
        ordered_by_time(entries, key).to_multiset() == entries.to_multiset(),
        ordered_by_time(entries, key).len() == entries.len(),
        forall|t: Option<Timestamp>|
            ordered_by_time(entries, key).filter(#[trigger] keyed(key, t)) == entries.filter(
                keyed(key, t),
            ),
    decreases entries.len(),
{
    broadcast use vstd::seq_lib::group_to_multiset_ensures;

    if entries.len() > 0 {
        let rest = entries.drop_last();
        ordering_is_a_stable_sort(rest, key);
        let inner = ordered_by_time(rest, key);
        lemma_insert_oldest_first(inner, entries.last(), key);
        assert(entries =~= rest.push(entries.last()));
        assert forall|t: Option<Timestamp>|
            ordered_by_time(entries, key).filter(#[trigger] keyed(key, t)) == entries.filter(
                keyed(key, t),
            ) by {
            reveal(Seq::filter);
            lemma_insert_keeps_order(inner, entries.last(), key, t);
            assert(inner.push(entries.last()).drop_last() =~= inner);
            assert(inner.filter(keyed(key, t)) == rest.filter(keyed(key, t)));
        }
    }
}

/// Where each entry has the instant of its name, the names are ordered as names are.
pub proof fn lemma_ordered_names<E>(
    entries: Seq<E>,
    key: spec_fn(E) -> Option<Timestamp>,
    name: spec_fn(E) -> Seq<char>,
)
    requires
        forall|i: int| 0 <= i < entries.len() ==> key(#[trigger] entries[i]) == stamp(
            name(entries[i]),
        ),
    ensures
        ordered_by_time(entries, key).map_values(name) == in_time_order(entries.map_values(name)),
        forall|i: int|
            0 <= i < entries.len() ==> entries.contains(
                #[trigger] ordered_by_time(entries, key)[i],
            ),
    decreases entries.len(),
{
    broadcast use vstd::seq_lib::group_to_multiset_ensures;

    let all = ordered_by_time(entries, key);
    ordering_is_a_stable_sort(entries, key);
    assert forall|i: int| 0 <= i < entries.len() implies entries.contains(#[trigger] all[i]) by {
        assert(all.to_multiset().count(all[i]) > 0);
    }
    if entries.len() > 0 {
        let rest = entries.drop_last();
        lemma_ordered_names(rest, key, name);
        ordering_is_a_stable_sort(rest, key);
        let inner = ordered_by_time(rest, key);
        assert forall|i: int| 0 <= i < inner.len() implies key(#[trigger] inner[i]) == stamp(
            name(inner[i]),
        ) by {
            assert(rest.contains(inner[i]));
            let k = choose|k: int| 0 <= k < rest.len() && rest[k] == inner[i];
            assert(entries[k] == inner[i]);
        }
        assert(key(entries[entries.len() - 1]) == stamp(name(entries[entries.len() - 1])));
        lemma_insert_names(inner, entries.last(), key, name);
        assert(entries.map_values(name).drop_last() =~= rest.map_values(name));
        assert(entries.map_values(name).last() == name(entries.last()));
    } else {
        assert(all.map_values(name) =~= in_time_order(entries.map_values(name)));
    }
}

proof fn lemma_insert_names<E>(
    entries: Seq<E>,
    e: E,
    key: spec_fn(E) -> Option<Timestamp>,
    name: spec_fn(E) -> Seq<char>,
)
    requires
        forall|i: int| 0 <= i < entries.len() ==> key(#[trigger] entries[i]) == stamp(
            name(entries[i]),
        ),
        key(e) == stamp(name(e)),
    ensures
        insert_by_time(entries, e, key).map_values(name) == insert_by_time(
            entries.map_values(name),
            name(e),
            name_time(),
        ),
    decreases entries.len(),
{
    let names = entries.map_values(name);
    if entries.len() > 0 {
        assert(key(entries[entries.len() - 1]) == stamp(names[entries.len() - 1]));
    }
    if entries.len() == 0 || stamp_le(key(entries.last()), key(e)) {
        assert(entries.push(e).map_values(name) =~= names.push(name(e)));
    } else {
        let rest = entries.drop_last();
        assert forall|i: int| 0 <= i < rest.len() implies key(#[trigger] rest[i]) == stamp(
            name(rest[i]),
        ) by {
            assert(rest[i] == entries[i]);
        }
        lemma_insert_names(rest, e, key, name);
        let inner = insert_by_time(rest, e, key);
        assert(names.drop_last() =~= rest.map_values(name));
        assert(inner.push(entries.last()).map_values(name) =~= inner.map_values(name).push(
            names.last(),
        ));
    }
}

proof fn lemma_insert_by_time_at<E>(
    entries: Seq<E>,
    e: E,
    key: spec_fn(E) -> Option<Timestamp>,
    p: int,
)
    requires
        0 <= p <= entries.len(),
        p == 0 || stamp_le(key(entries[p - 1]), key(e)),
        forall|j: int| p <= j < entries.len() ==> !stamp_le(key(#[trigger] entries[j]), key(e)),
    ensures
        insert_by_time(entries, e, key) == entries.insert(p, e),
    decreases entries.len(),
{
    if p < entries.len() {
        assert(!stamp_le(key(entries[entries.len() - 1]), key(e)));
        let rest = entries.drop_last();
        assert forall|j: int| p <= j < rest.len() implies !stamp_le(
            key(#[trigger] rest[j]),
            key(e),
        ) by {
            assert(rest[j] == entries[j]);
        }
        lemma_insert_by_time_at(rest, e, key, p);
        assert(entries.insert(p, e) =~= rest.insert(p, e).push(entries.last()));
    } else {
        assert(entries.insert(p, e) =~= entries.push(e));
    }
}

fn stamp_not_later(a: Option<Timestamp>, b: Option<Timestamp>) -> (r: bool)
    ensures
        r == stamp_le(a, b),
{
    match (a, b) {
        (None, _) => true,
        (Some(_), None) => false,
        (Some(x), Some(y)) => !y.is_before(&x),
    }
}

/// Puts `e`, of the instant `t`, behind all of `entries` that are not later. `stamps`
/// are the instants of these, as `key` gives them.
pub(crate) fn put_by_time<E>(
    entries: &mut Vec<E>,
    stamps: &mut Vec<Option<Timestamp>>,
    e: E,
    t: Option<Timestamp>,
    Ghost(key): Ghost<spec_fn(E) -> Option<Timestamp>>,
)
    requires
        old(stamps)@ == old(entries)@.map_values(key),
        t == key(e),
    ensures
        final(entries)@ == insert_by_time(old(entries)@, e, key),
        final(stamps)@ == final(entries)@.map_values(key),
{
    let mut p: usize = entries.len();
    while p > 0 && !stamp_not_later(stamps[p - 1], t)
        invariant
            *entries == *old(entries),
            *stamps == *old(stamps),
            stamps@ == entries@.map_values(key),
            t == key(e),
            p <= entries@.len(),
            forall|j: int| p <= j < entries@.len() ==> !stamp_le(key(#[trigger] entries@[j]), key(e)),
        decreases p,
    {
        p = p - 1;
        assert(stamps@[p as int] == key(entries@[p as int]));
    }
    proof {
        if p > 0 {
            assert(stamps@[p - 1] == key(entries@[p - 1]));
        }
        lemma_insert_by_time_at(entries@, e, key, p as int);
        assert(entries@.insert(p as int, e).map_values(key) =~= stamps@.insert(p as int, t));
    }
    entries.insert(p, e);
    stamps.insert(p, t);
}

// ---------------------------------------------------------------------------
// Names in order
// ---------------------------------------------------------------------------

/// The instant of a name.
pub open spec fn name_time() -> spec_fn(Seq<char>) -> Option<Timestamp> {
    |name: Seq<char>| stamp(name)
}

/// `names` oldest first; those of one instant keep the order they stand in.
pub open spec fn in_time_order(names: Seq<Seq<char>>) -> Seq<Seq<char>> {
    ordered_by_time(names, name_time())
}

/// Whether `names` stand oldest first.
pub open spec fn chronological(names: Seq<Seq<char>>) -> bool {
    forall|i: int, j: int|
        0 <= i < j < names.len() ==> stamp_le(
            stamp(#[trigger] names[i]),
            stamp(#[trigger] names[j]),
        )
}

/// The predicate that picks the names of one instant.
pub open spec fn stamped(t: Option<Timestamp>) -> spec_fn(Seq<char>) -> bool {
    keyed(name_time(), t)
}

/// Sorting by time puts the oldest first, keeps every name as often as it
/// stands, and leaves those of one instant in the order they stood.
pub proof fn time_order_is_a_stable_sort(names: Seq<Seq<char>>)
    ensures
        chronological(in_time_order(names)),
        in_time_order(names).to_multiset() == names.to_multiset(),
        in_time_order(names).len() == names.len(),
        forall|t: Option<Timestamp>|
            in_time_order(names).filter(#[trigger] stamped(t)) == names.filter(stamped(t)),
{
    ordering_is_a_stable_sort(names, name_time());
    let r = in_time_order(names);
    assert forall|i: int, j: int| 0 <= i < j < r.len() implies stamp_le(
        stamp(#[trigger] r[i]),
        stamp(#[trigger] r[j]),
    ) by {
        assert(stamp_le(name_time()(r[i]), name_time()(r[j])));
    }
}

/// Names that stand oldest first are left as they stand.
pub proof fn lemma_sorted_stays(names: Seq<Seq<char>>)
    requires
        chronological(names),
    ensures
        in_time_order(names) == names,
    decreases names.len(),
{
    if names.len() > 0 {
        let rest = names.drop_last();
        assert forall|i: int, j: int| 0 <= i < j < rest.len() implies stamp_le(
            stamp(#[trigger] rest[i]),
            stamp(#[trigger] rest[j]),
        ) by {
            assert(stamp_le(stamp(names[i]), stamp(names[j])));
        }
        lemma_sorted_stays(rest);
        if rest.len() > 0 {
            assert(stamp_le(stamp(names[names.len() - 2]), stamp(names[names.len() - 1])));
        }
        assert(names =~= rest.push(names.last()));
    }
}

/// The instant of a text's name.
spec fn string_time() -> spec_fn(String) -> Option<Timestamp> {
    |s: String| stamp(s@)
}

/// Sorts `names` oldest first; names of one instant keep their order, and names
/// that carry no instant come first.
pub fn sort_chronological(names: &mut Vec<String>)
    ensures
        texts(final(names)@) == in_time_order(texts(old(names)@)),
        chronological(texts(final(names)@)),
        texts(final(names)@).to_multiset() == texts(old(names)@).to_multiset(),
{
    let ghost all = names@;
    let mut sorted: Vec<String> = Vec::new();
    let mut stamps: Vec<Option<Timestamp>> = Vec::new();
    let mut i: usize = 0;
    proof {
        assert(all.take(0) =~= seq![]);
        assert(stamps@ =~= sorted@.map_values(string_time()));
    }
    while i < names.len()
        invariant
            i <= names@.len(),
            *names == *old(names),
            all == names@,
            sorted@ == ordered_by_time(all.take(i as int), string_time()),
            stamps@ == sorted@.map_values(string_time()),
        decreases names@.len() - i,
    {
        let name = names[i].clone();
        let t = parse(name.as_str());
        proof {
            assert(all.take(i + 1).drop_last() =~= all.take(i as int));
            assert(all.take(i + 1).last() == name);
        }
        put_by_time(&mut sorted, &mut stamps, name, t, Ghost(string_time()));
        i = i + 1;
    }
    proof {
        assert(all.take(all.len() as int) =~= all);
        let name = |s: String| s@;
        lemma_ordered_names(all, string_time(), name);
        assert(sorted@.map_values(name) =~= texts(sorted@));
        assert(all.map_values(name) =~= texts(all));
        time_order_is_a_stable_sort(texts(all));
    }
    *names = sorted;
}

} // verus!
