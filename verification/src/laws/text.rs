//! Texts and tables.

use crate::number::{all_digits, digit_char, digits_value, is_digit, unsigned_value};
use crate::text::{
    cut, find_from, has_prefix, is_space, lemma_cut, lemma_cut_join, lemma_find_from, lines_of,
    lookup, occurs, occurs_at, text_less, trimmed, trimmed_end, two_fields,
};
use vstd::prelude::*;

verus! {

/// Whether `name` is what stands behind the first `@` of `s`.
pub open spec fn named(s: Seq<char>, name: Seq<char>) -> bool {
    exists|d: Seq<char>| !d.contains('@') && s == #[trigger] d.push('@') + name
}

/// A text has one name at most, and has one where it holds an `@`.
pub proof fn names_are_unique(s: Seq<char>, name: Seq<char>)
    ensures
        named(s, name) <==> match cut(s, '@') {
            Some((_, n)) => n == name,
            None => false,
        },
        s.contains('@') <==> cut(s, '@') is Some,
{
    lemma_cut(s, '@');
    if named(s, name) {
        let d = choose|d: Seq<char>| !d.contains('@') && s == #[trigger] d.push('@') + name;
        lemma_cut_join(d, '@', name);
    }
    match cut(s, '@') {
        Some((d, n)) => {
            assert(s == d.push('@') + n);
            assert(s[d.len() as int] == '@');
            if n == name {
                assert(named(s, name));
            }
        },
        None => {},
    }
}

/// A table gives the first entry under a key, and nothing where there is none.
pub proof fn lookup_finds_the_first<V>(table: Seq<(String, V)>, key: Seq<char>)
    ensures
        match lookup(table, key) {
            Some(v) => exists|i: int|
                0 <= i < table.len() && (#[trigger] table[i]).0@ == key && table[i].1 == v
                    && forall|j: int| 0 <= j < i ==> (#[trigger] table[j]).0@ != key,
            None => forall|i: int| 0 <= i < table.len() ==> (#[trigger] table[i]).0@ != key,
        },
    decreases table.len(),
{
    if table.len() > 0 && table[0].0@ != key {
        let rest = table.drop_first();
        lookup_finds_the_first(rest, key);
        match lookup(rest, key) {
            Some(v) => {
                let i = choose|i: int|
                    0 <= i < rest.len() && (#[trigger] rest[i]).0@ == key && rest[i].1 == v
                        && forall|j: int| 0 <= j < i ==> (#[trigger] rest[j]).0@ != key;
                assert(table[i + 1] == rest[i]);
                assert forall|j: int| 0 <= j < i + 1 implies (#[trigger] table[j]).0@ != key by {
                    if j > 0 {
                        assert(rest[j - 1] == table[j]);
                    }
                }
            },
            None => {
                assert forall|i: int| 0 <= i < table.len() implies (#[trigger] table[i]).0@
                    != key by {
                    if i > 0 {
                        assert(rest[i - 1] == table[i]);
                    }
                }
            },
        }
    }
}

/// A text starts with another where it is that one with something behind it.
pub proof fn prefix_stands_in_front(s: Seq<char>, prefix: Seq<char>)
    ensures
        has_prefix(s, prefix) <==> exists|rest: Seq<char>| s == #[trigger] (prefix + rest),
{
    if has_prefix(s, prefix) {
        assert(s =~= prefix + s.skip(prefix.len() as int));
    }
    if exists|rest: Seq<char>| s == #[trigger] (prefix + rest) {
        let rest = choose|rest: Seq<char>| s == #[trigger] (prefix + rest);
        assert(s.subrange(0, prefix.len() as int) =~= prefix);
    }
}

/// A text holds another where it is that one with something around it.
pub proof fn held_text_has_surroundings(s: Seq<char>, needle: Seq<char>)
    ensures
        occurs(s, needle) <==> exists|a: Seq<char>, b: Seq<char>|
            #![trigger a + needle + b]
            s == a + needle + b,
{
    if occurs(s, needle) {
        let i = choose|i: int| occurs_at(s, needle, i);
        assert(s =~= s.take(i) + needle + s.skip(i + needle.len()));
    }
    if exists|a: Seq<char>, b: Seq<char>|
        #![trigger a + needle + b]
        s == a + needle + b {
        let (a, b) = choose|a: Seq<char>, b: Seq<char>|
            #![trigger a + needle + b]
            s == a + needle + b;
        assert(s.subrange(a.len() as int, (a.len() + needle.len()) as int) =~= needle);
        assert(occurs_at(s, needle, a.len() as int));
    }
}

/// The two fields of a line stand in front of its tabs: the first up to the first tab,
/// the second up to the next one or the end. Without a tab there are none.
pub proof fn fields_stand_between_tabs(line: Seq<char>)
    ensures
        match two_fields(line) {
            Some((a, b)) => !a.contains('\t') && !b.contains('\t') && (line == a.push('\t') + b
                || exists|rest: Seq<char>|
                line == #[trigger] (a.push('\t') + (b.push('\t') + rest))),
            None => !line.contains('\t'),
        },
{
    lemma_cut(line, '\t');
    match cut(line, '\t') {
        Some((_, rest)) => {
            lemma_cut(rest, '\t');
        },
        None => {},
    }
}

/// The lines of a text: what stands before a line feed, without the carriage return at
/// its end, and then the lines of the rest. What no line feed ends is a line as it is,
/// where it is not empty.
pub proof fn lines_end_in_line_feeds(a: Seq<char>, rest: Seq<char>)
    requires
        !a.contains('\n'),
    ensures
        lines_of(a) == if a.len() == 0 {
            Seq::<Seq<char>>::empty()
        } else {
            seq![a]
        },
        lines_of(a.push('\n') + rest) == seq![
            if a.len() > 0 && a.last() == '\r' {
                a.drop_last()
            } else {
                a
            },
        ] + lines_of(rest),
{
    let s = a.push('\n') + rest;
    lemma_cut_join(a, '\n', rest);
    lemma_cut(a, '\n');
    let i = find_from(s, seq!['\n'], 0)->0;
    assert(s.take(i) == a && s.skip(i + 1) == rest);
    lemma_find_from(s, seq!['\n'], 0);
    lemma_find_from(a, seq!['\n'], 0);
    if cut(a, '\n') is Some {
        let (x, y) = cut(a, '\n')->0;
        assert(a[x.len() as int] == '\n');
    }
}

proof fn lemma_trimmed_end(s: Seq<char>)
    ensures
        exists|b: Seq<char>|
            s == #[trigger] (trimmed_end(s) + b) && forall|i: int|
                0 <= i < b.len() ==> is_space(#[trigger] b[i]),
        trimmed_end(s).len() > 0 ==> !is_space(trimmed_end(s).last()),
    decreases s.len(),
{
    if s.len() > 0 && is_space(s.last()) {
        let rest = s.drop_last();
        lemma_trimmed_end(rest);
        let b = choose|b: Seq<char>|
            rest == #[trigger] (trimmed_end(rest) + b) && forall|i: int|
                0 <= i < b.len() ==> is_space(#[trigger] b[i]);
        let c = b.push(s.last());
        assert(s =~= rest.push(s.last()));
        assert((trimmed_end(rest) + b).push(s.last()) =~= trimmed_end(s) + c);
        assert(s == trimmed_end(s) + c);
    } else {
        assert(s =~= trimmed_end(s) + Seq::empty());
    }
}

/// Trimming takes away whitespace at both ends, all of it, and nothing else.
pub proof fn trimming_takes_whitespace_alone(s: Seq<char>)
    ensures
        exists|a: Seq<char>, b: Seq<char>|
            #![trigger a + trimmed(s) + b]
            s == a + trimmed(s) + b && (forall|i: int|
                0 <= i < a.len() ==> is_space(#[trigger] a[i])) && (forall|i: int|
                0 <= i < b.len() ==> is_space(#[trigger] b[i])),
        trimmed(s).len() > 0 ==> !is_space(trimmed(s)[0]) && !is_space(trimmed(s).last()),
    decreases s.len(),
{
    let t = trimmed(s);
    if s.len() > 0 && is_space(s.first()) {
        let rest = s.drop_first();
        trimming_takes_whitespace_alone(rest);
        let (a, b) = choose|a: Seq<char>, b: Seq<char>|
            #![trigger a + trimmed(rest) + b]
            rest == a + trimmed(rest) + b && (forall|i: int|
                0 <= i < a.len() ==> is_space(#[trigger] a[i])) && (forall|i: int|
                0 <= i < b.len() ==> is_space(#[trigger] b[i]));
        let c = seq![s.first()] + a;
        assert(s =~= seq![s.first()] + rest);
        assert(seq![s.first()] + (a + trimmed(rest) + b) =~= c + t + b);
        assert(s == c + t + b);
    } else {
        lemma_trimmed_end(s);
        let b = choose|b: Seq<char>|
            s == #[trigger] (trimmed_end(s) + b) && forall|i: int|
                0 <= i < b.len() ==> is_space(#[trigger] b[i]);
        assert(s =~= Seq::<char>::empty() + t + b);
        if t.len() > 0 {
            assert(t[0] == s[0]);
        }
    }
}

/// One text is before another where it ends first or has the smaller character where
/// they first differ.
pub proof fn texts_differ_where_they_are_ordered(a: Seq<char>, b: Seq<char>)
    ensures
        text_less(a, b) <==> exists|k: int|
            #![trigger a.take(k)]
            0 <= k <= a.len() && k < b.len() && a.take(k) == b.take(k) && (k == a.len() || a[k]
                < b[k]),
    decreases a.len(),
{
    if a.len() > 0 && b.len() > 0 && a[0] == b[0] {
        let x = a.drop_first();
        let y = b.drop_first();
        texts_differ_where_they_are_ordered(x, y);
        if text_less(a, b) {
            let k = choose|k: int|
                #![trigger x.take(k)]
                0 <= k <= x.len() && k < y.len() && x.take(k) == y.take(k) && (k == x.len() || x[k]
                    < y[k]);
            assert(a.take(k + 1) =~= seq![a[0]] + x.take(k));
            assert(b.take(k + 1) =~= seq![b[0]] + y.take(k));
        }
        if exists|k: int|
            #![trigger a.take(k)]
            0 <= k <= a.len() && k < b.len() && a.take(k) == b.take(k) && (k == a.len() || a[k]
                < b[k]) {
            let k = choose|k: int|
                #![trigger a.take(k)]
                0 <= k <= a.len() && k < b.len() && a.take(k) == b.take(k) && (k == a.len() || a[k]
                    < b[k]);
            assert(k > 0);
            assert(x.take(k - 1) =~= a.take(k).drop_first());
            assert(y.take(k - 1) =~= b.take(k).drop_first());
        }
    } else {
        assert(a.take(0) =~= b.take(0));
        if a.len() > 0 && b.len() > 0 {
            assert forall|k: int|
                #![trigger a.take(k)]
                0 < k <= a.len() && k < b.len() implies a.take(k) != b.take(k) by {
                assert(a.take(k)[0] != b.take(k)[0]);
            }
        }
    }
}

/// A text of digits, perhaps behind a plus, writes a number: ten times what the digits
/// before the last one write, and the last one. Any other text writes none.
pub proof fn digits_write_their_number(s: Seq<char>, d: int)
    requires
        0 <= d <= 9,
    ensures
        unsigned_value(s) is Some <==> (s.len() > 0 && all_digits(s)) || (s.len() > 1 && s[0] == '+'
            && all_digits(s.skip(1))),
        all_digits(s) ==> digits_value(s.push(digit_char(d))) == digits_value(s) * 10 + d,
        all_digits(s) && s.len() > 0 ==> unsigned_value(s) == Some(digits_value(s)),
        digits_value(seq![]) == 0,
{
    assert(s.push(digit_char(d)).drop_last() =~= s);
    if s.len() > 0 && all_digits(s) {
        assert(is_digit(s[0]));
    }
}

} // verus!
