//! Text as a sequence of characters: searching, splitting, trimming, numbers.

use vstd::prelude::*;
use vstd::string::*;

verus! {

/// `String::push` appends one character and leaves the rest alone.
pub assume_specification[ String::push ](s: &mut String, ch: char)
    ensures
        final(s)@ == old(s)@.push(ch),
;

// ---------------------------------------------------------------------------
// Views
// ---------------------------------------------------------------------------

/// The texts a list of strings holds.
pub open spec fn texts(v: Seq<String>) -> Seq<Seq<char>> {
    v.map_values(|s: String| s@)
}

/// The texts a list of borrowed strings holds.
pub open spec fn str_texts(v: Seq<&str>) -> Seq<Seq<char>> {
    v.map_values(|s: &str| s@)
}

/// The text an optional string holds.
pub open spec fn opt_text(o: Option<String>) -> Option<Seq<char>> {
    match o {
        Some(s) => Some(s@),
        None => None,
    }
}

/// The texts of a list with one more string.
pub proof fn lemma_texts_push(v: Seq<String>, s: String)
    ensures
        texts(v.push(s)) == texts(v).push(s@),
{
    assert(texts(v.push(s)) =~= texts(v).push(s@));
}

// ---------------------------------------------------------------------------
// Characters in and out of strings
// ---------------------------------------------------------------------------

/// The characters of `s`, in order.
pub fn chars_of(s: &str) -> (r: Vec<char>)
    ensures
        r@ == s@,
{
    broadcast use vstd::string::axiom_spec_iter;

    let mut out: Vec<char> = Vec::new();
    for c in it: s.chars()
        invariant
            it.seq() == s@,
            out@ == s@.take(it.index()),
    {
        out.push(c);
        assert(out@ =~= s@.take(it.index() + 1));
    }
    assert(out@ =~= s@);
    out
}

/// The string made of `cs[from..to]`.
pub fn string_of(cs: &[char], from: usize, to: usize) -> (r: String)
    requires
        from <= to <= cs@.len(),
    ensures
        r@ == cs@.subrange(from as int, to as int),
{
    let mut out = String::new();
    let mut i: usize = from;
    assert(out@ =~= cs@.subrange(from as int, from as int));
    while i < to
        invariant
            from <= i <= to <= cs@.len(),
            out@ == cs@.subrange(from as int, i as int),
        decreases to - i,
    {
        out.push(cs[i]);
        i = i + 1;
        assert(out@ =~= cs@.subrange(from as int, i as int));
    }
    out
}

/// Whether two texts are the same.
pub fn str_eq(a: &str, b: &str) -> (r: bool)
    ensures
        r == (a@ == b@),
{
    let x = chars_of(a);
    let y = chars_of(b);
    if x.len() != y.len() {
        return false;
    }
    let mut i: usize = 0;
    while i < x.len()
        invariant
            x@ == a@,
            y@ == b@,
            x@.len() == y@.len(),
            i <= x@.len(),
            forall|j: int| 0 <= j < i ==> x@[j] == y@[j],
        decreases x@.len() - i,
    {
        if x[i] != y[i] {
            return false;
        }
        i = i + 1;
    }
    assert(a@ =~= b@);
    true
}

// ---------------------------------------------------------------------------
// Searching
// ---------------------------------------------------------------------------

/// Whether `needle` stands in `s` at position `i`.
pub open spec fn occurs_at(s: Seq<char>, needle: Seq<char>, i: int) -> bool {
    0 <= i && i + needle.len() <= s.len() && s.subrange(i, i + needle.len()) == needle
}

/// Whether `needle` stands somewhere in `s`.
pub open spec fn occurs(s: Seq<char>, needle: Seq<char>) -> bool {
    exists|i: int| occurs_at(s, needle, i)
}

/// The first position at or after `i` where `needle` stands in `s`.
pub open spec fn find_from(s: Seq<char>, needle: Seq<char>, i: int) -> Option<int>
    decreases s.len() + 1 - i,
{
    if i < 0 || i + needle.len() > s.len() {
        None
    } else if s.subrange(i, i + needle.len()) == needle {
        Some(i)
    } else {
        find_from(s, needle, i + 1)
    }
}

/// The search finds the first place, and none where there is none.
pub proof fn lemma_find_from(s: Seq<char>, needle: Seq<char>, i: int)
    requires
        0 <= i,
    ensures
        match find_from(s, needle, i) {
            Some(k) => i <= k && occurs_at(s, needle, k) && (forall|j: int|
                i <= j < k ==> !occurs_at(s, needle, j)),
            None => forall|j: int| i <= j ==> !occurs_at(s, needle, j),
        },
    decreases s.len() + 1 - i,
{
    if i + needle.len() > s.len() {
    } else if s.subrange(i, i + needle.len()) == needle {
    } else {
        lemma_find_from(s, needle, i + 1);
    }
}

/// A text occurs exactly where the search finds it.
pub proof fn lemma_find_occurs(s: Seq<char>, needle: Seq<char>)
    ensures
        find_from(s, needle, 0) is Some <==> occurs(s, needle),
{
    lemma_find_from(s, needle, 0);
}

/// Whether `needle` stands in `cs` at position `i`.
pub fn match_at(cs: &[char], needle: &[char], i: usize) -> (r: bool)
    requires
        i <= cs@.len(),
    ensures
        r == occurs_at(cs@, needle@, i as int),
{
    let n: usize = cs.len();
    if needle.len() > n - i {
        return false;
    }
    let mut j: usize = 0;
    while j < needle.len()
        invariant
            j <= needle@.len(),
            n == cs@.len(),
            i + needle@.len() <= cs@.len(),
            forall|k: int| 0 <= k < j ==> cs@[i + k] == needle@[k],
        decreases needle@.len() - j,
    {
        if cs[i + j] != needle[j] {
            assert(cs@.subrange(i as int, i + needle@.len())[j as int] == cs@[i + j]);
            return false;
        }
        j = j + 1;
    }
    assert(cs@.subrange(i as int, i + needle@.len()) =~= needle@);
    true
}

/// The first position at or after `from` where `needle` stands in `cs`.
pub fn find_text(cs: &[char], needle: &[char], from: usize) -> (r: Option<usize>)
    requires
        from <= cs@.len(),
    ensures
        match r {
            Some(i) => find_from(cs@, needle@, from as int) == Some(i as int),
            None => find_from(cs@, needle@, from as int) is None,
        },
        r is Some ==> from <= r->0 && r->0 + needle@.len() <= cs@.len(),
{
    let mut i: usize = from;
    proof {
        lemma_find_from(cs@, needle@, from as int);
    }
    let n: usize = cs.len();
    while i < n && needle.len() <= n - i
        invariant
            n == cs@.len(),
            from <= i <= cs@.len(),
            find_from(cs@, needle@, from as int) == find_from(cs@, needle@, i as int),
        decreases cs@.len() - i,
    {
        if match_at(cs, needle, i) {
            return Some(i);
        }
        i = i + 1;
    }
    if needle.len() == 0 {
        assert(cs@.subrange(i as int, i as int) =~= needle@);
        return Some(i);
    }
    None
}

/// Whether `needle` stands somewhere in `s`.
pub fn contains_text(s: &str, needle: &str) -> (r: bool)
    ensures
        r == occurs(s@, needle@),
{
    let cs = chars_of(s);
    let ns = chars_of(needle);
    proof {
        lemma_find_occurs(s@, needle@);
    }
    find_text(cs.as_slice(), ns.as_slice(), 0).is_some()
}

/// Whether `s` begins with `prefix`.
pub open spec fn has_prefix(s: Seq<char>, prefix: Seq<char>) -> bool {
    prefix.len() <= s.len() && s.subrange(0, prefix.len() as int) == prefix
}

/// Whether `s` begins with `prefix`.
pub fn starts_with(s: &str, prefix: &str) -> (r: bool)
    ensures
        r == has_prefix(s@, prefix@),
{
    let cs = chars_of(s);
    let ps = chars_of(prefix);
    match_at(cs.as_slice(), ps.as_slice(), 0)
}

/// What follows `prefix` in `s`, where `s` begins with it.
pub fn strip_prefix(s: &str, prefix: &str) -> (r: Option<String>)
    ensures
        match r {
            Some(rest) => has_prefix(s@, prefix@) && rest@ == s@.skip(prefix@.len() as int),
            None => !has_prefix(s@, prefix@),
        },
{
    let cs = chars_of(s);
    let ps = chars_of(prefix);
    if match_at(cs.as_slice(), ps.as_slice(), 0) {
        let rest = string_of(cs.as_slice(), ps.len(), cs.len());
        assert(rest@ =~= s@.skip(prefix@.len() as int));
        Some(rest)
    } else {
        None
    }
}

/// `s` cut at the first `c`: what stands before it and what stands after it.
pub open spec fn cut(s: Seq<char>, c: char) -> Option<(Seq<char>, Seq<char>)> {
    match find_from(s, seq![c], 0) {
        Some(i) => Some((s.take(i), s.skip(i + 1))),
        None => None,
    }
}

/// `s` cut at the first `c`.
pub fn split_once(s: &str, c: char) -> (r: Option<(String, String)>)
    ensures
        match r {
            Some((a, b)) => cut(s@, c) == Some((a@, b@)),
            None => cut(s@, c) is None,
        },
{
    let cs = chars_of(s);
    let n: usize = cs.len();
    let mut needle: Vec<char> = Vec::new();
    needle.push(c);
    assert(needle@ =~= seq![c]);
    match find_text(cs.as_slice(), needle.as_slice(), 0) {
        Some(i) => {
            let a = string_of(cs.as_slice(), 0, i);
            let b = string_of(cs.as_slice(), i + 1, n);
            assert(a@ =~= s@.take(i as int));
            assert(b@ =~= s@.skip(i + 1));
            Some((a, b))
        },
        None => None,
    }
}

/// Where a text is cut: the left part lacks `c`, and the parts with `c` between
/// them make the text; a text that is not cut lacks `c`.
pub proof fn lemma_cut(s: Seq<char>, c: char)
    ensures
        match cut(s, c) {
            Some((a, b)) => !a.contains(c) && s == a.push(c) + b,
            None => !s.contains(c),
        },
{
    lemma_find_from(s, seq![c], 0);
    match find_from(s, seq![c], 0) {
        Some(i) => {
            let a = s.take(i);
            assert forall|j: int| 0 <= j < i implies a[j] != c by {
                if s[j] == c {
                    assert(s.subrange(j, j + 1) =~= seq![c]);
                    assert(occurs_at(s, seq![c], j));
                }
            }
            assert(s.subrange(i, i + 1)[0] == s[i]);
            assert(s =~= a.push(c) + s.skip(i + 1));
        },
        None => {
            assert forall|j: int| 0 <= j < s.len() implies s[j] != c by {
                if s[j] == c {
                    assert(s.subrange(j, j + 1) =~= seq![c]);
                    assert(occurs_at(s, seq![c], j));
                }
            }
        },
    }
}

/// A text without `c`, then `c`, then anything, is cut at that `c`.
pub proof fn lemma_cut_join(a: Seq<char>, c: char, b: Seq<char>)
    requires
        !a.contains(c),
    ensures
        cut(a.push(c) + b, c) == Some((a, b)),
{
    let s = a.push(c) + b;
    lemma_cut(s, c);
    lemma_find_from(s, seq![c], 0);
    assert(s[a.len() as int] == c);
    assert(s.subrange(a.len() as int, a.len() as int + 1) =~= seq![c]);
    assert(occurs_at(s, seq![c], a.len() as int));
    let i = find_from(s, seq![c], 0)->0;
    assert(s.subrange(i, i + 1)[0] == s[i]);
    if i < a.len() {
        assert(a[i] == c);
    }
    assert(i == a.len());
    assert(s.take(i) =~= a);
    assert(s.skip(i + 1) =~= b);
}

// ---------------------------------------------------------------------------
// Lines and fields
// ---------------------------------------------------------------------------

/// A line without the carriage return that ends it, if one does.
pub open spec fn without_cr(line: Seq<char>) -> Seq<char> {
    if line.len() > 0 && line.last() == '\r' {
        line.drop_last()
    } else {
        line
    }
}

/// The lines of a text: each ends at a line feed, with or without a carriage
/// return before it; what follows the last line feed is a line where it is not
/// empty.
pub open spec fn lines_of(s: Seq<char>) -> Seq<Seq<char>>
    decreases s.len(),
{
    match find_from(s, seq!['\n'], 0) {
        Some(i) => if 0 <= i < s.len() {
            seq![without_cr(s.take(i))] + lines_of(s.skip(i + 1))
        } else {
            seq![]
        },
        None => if s.len() == 0 {
            seq![]
        } else {
            seq![s]
        },
    }
}

proof fn lemma_find_from_skip(s: Seq<char>, needle: Seq<char>, from: int, i: int)
    requires
        0 <= from <= s.len(),
        0 <= i,
    ensures
        find_from(s.skip(from), needle, i) == (match find_from(s, needle, from + i) {
            Some(k) => Some(k - from),
            None => None,
        }),
    decreases s.len() + 1 - i,
{
    let t = s.skip(from);
    if from + i + needle.len() > s.len() {
    } else {
        assert(t.subrange(i, i + needle.len()) =~= s.subrange(from + i, from + i + needle.len()));
        if t.subrange(i, i + needle.len()) == needle {
        } else {
            lemma_find_from_skip(s, needle, from, i + 1);
        }
    }
}

/// The lines of a text.
pub fn lines(s: &str) -> (r: Vec<String>)
    ensures
        texts(r@) == lines_of(s@),
{
    let cs = chars_of(s);
    let n: usize = cs.len();
    let mut needle: Vec<char> = Vec::new();
    needle.push('\n');
    assert(needle@ =~= seq!['\n']);
    let mut out: Vec<String> = Vec::new();
    let mut pos: usize = 0;
    assert(s@.skip(0) =~= s@);
    assert(texts(out@) + lines_of(s@.skip(0)) =~= lines_of(s@));
    while pos < n
        invariant
            cs@ == s@,
            n == cs@.len(),
            needle@ == seq!['\n'],
            pos <= n,
            texts(out@) + lines_of(s@.skip(pos as int)) == lines_of(s@),
        decreases n - pos,
    {
        proof {
            lemma_find_from_skip(s@, seq!['\n'], pos as int, 0);
            lemma_find_from(s@, seq!['\n'], pos as int);
        }
        let ghost before = out@;
        match find_text(cs.as_slice(), needle.as_slice(), pos) {
            Some(i) => {
                let end: usize = if i > pos && cs[i - 1] == '\r' {
                    i - 1
                } else {
                    i
                };
                let line = string_of(cs.as_slice(), pos, end);
                proof {
                    let rest = s@.skip(pos as int);
                    let taken = rest.take(i - pos);
                    assert(taken =~= s@.subrange(pos as int, i as int));
                    assert(line@ =~= without_cr(taken));
                    assert(rest.skip(i - pos + 1) =~= s@.skip(i + 1));
                    assert(lines_of(rest) == seq![line@] + lines_of(s@.skip(i + 1)));
                    lemma_texts_push(before, line);
                    assert(texts(before) + (seq![line@] + lines_of(s@.skip(i + 1))) =~= texts(
                        before,
                    ).push(line@) + lines_of(s@.skip(i + 1)));
                }
                out.push(line);
                pos = i + 1;
            },
            None => {
                let line = string_of(cs.as_slice(), pos, n);
                proof {
                    let rest = s@.skip(pos as int);
                    assert(line@ =~= rest);
                    assert(lines_of(rest) == seq![rest]);
                    lemma_texts_push(before, line);
                    assert(s@.skip(n as int) =~= Seq::<char>::empty());
                    assert(lines_of(Seq::<char>::empty()) =~= seq![]) by {
                        lemma_find_from(Seq::<char>::empty(), seq!['\n'], 0);
                    }
                    assert(texts(before) + seq![line@] =~= texts(before).push(line@) + lines_of(
                        s@.skip(n as int),
                    ));
                }
                out.push(line);
                pos = n;
            },
        }
    }
    proof {
        assert(s@.skip(n as int) =~= Seq::<char>::empty());
        lemma_find_from(Seq::<char>::empty(), seq!['\n'], 0);
        assert(texts(out@) + lines_of(s@.skip(n as int)) =~= texts(out@));
    }
    out
}

/// The first two tab-separated fields of a line, where it has that many.
pub open spec fn two_fields(line: Seq<char>) -> Option<(Seq<char>, Seq<char>)> {
    match cut(line, '\t') {
        Some((first, rest)) => match cut(rest, '\t') {
            Some((second, _)) => Some((first, second)),
            None => Some((first, rest)),
        },
        None => None,
    }
}

/// The first two tab-separated fields of a line.
pub fn first_two_fields(line: &str) -> (r: Option<(String, String)>)
    ensures
        match r {
            Some((a, b)) => two_fields(line@) == Some((a@, b@)),
            None => two_fields(line@) is None,
        },
{
    match split_once(line, '\t') {
        Some((first, rest)) => match split_once(rest.as_str(), '\t') {
            Some((second, _)) => Some((first, second)),
            None => Some((first, rest)),
        },
        None => None,
    }
}

// ---------------------------------------------------------------------------
// Whitespace
// ---------------------------------------------------------------------------

/// The characters with the Unicode `White_Space` property.
pub open spec fn is_space(c: char) -> bool {
    ||| '\u{9}' <= c <= '\u{d}'
    ||| c == ' '
    ||| c == '\u{85}'
    ||| c == '\u{a0}'
    ||| c == '\u{1680}'
    ||| '\u{2000}' <= c <= '\u{200a}'
    ||| c == '\u{2028}'
    ||| c == '\u{2029}'
    ||| c == '\u{202f}'
    ||| c == '\u{205f}'
    ||| c == '\u{3000}'
}

fn space(c: char) -> (r: bool)
    ensures
        r == is_space(c),
{
    ('\u{9}' <= c && c <= '\u{d}') || c == ' ' || c == '\u{85}' || c == '\u{a0}' || c == '\u{1680}'
        || ('\u{2000}' <= c && c <= '\u{200a}') || c == '\u{2028}' || c == '\u{2029}' || c
        == '\u{202f}' || c == '\u{205f}' || c == '\u{3000}'
}

/// A text without the whitespace that ends it.
pub open spec fn trimmed_end(s: Seq<char>) -> Seq<char>
    decreases s.len(),
{
    if s.len() > 0 && is_space(s.last()) {
        trimmed_end(s.drop_last())
    } else {
        s
    }
}

/// A text without the whitespace around it.
pub open spec fn trimmed(s: Seq<char>) -> Seq<char>
    decreases s.len(),
{
    if s.len() > 0 && is_space(s.first()) {
        trimmed(s.drop_first())
    } else {
        trimmed_end(s)
    }
}

/// A text without the whitespace around it.
pub fn trim(s: &str) -> (r: String)
    ensures
        r@ == trimmed(s@),
{
    let cs = chars_of(s);
    let n: usize = cs.len();
    let mut a: usize = 0;
    assert(s@.subrange(0, n as int) =~= s@);
    while a < n && space(cs[a])
        invariant
            cs@ == s@,
            n == cs@.len(),
            a <= n,
            trimmed(s@.subrange(a as int, n as int)) == trimmed(s@),
        decreases n - a,
    {
        assert(s@.subrange(a as int, n as int).drop_first() =~= s@.subrange(a + 1, n as int));
        a = a + 1;
    }
    let mut b: usize = n;
    while a < b && space(cs[b - 1])
        invariant
            cs@ == s@,
            n == cs@.len(),
            a <= b <= n,
            trimmed_end(s@.subrange(a as int, b as int)) == trimmed(s@),
        decreases b,
    {
        assert(s@.subrange(a as int, b as int).drop_last() =~= s@.subrange(a as int, b - 1));
        b = b - 1;
    }
    string_of(cs.as_slice(), a, b)
}

// ---------------------------------------------------------------------------
// Order
// ---------------------------------------------------------------------------

/// Character by character order of texts, a prefix before what it begins.
pub open spec fn text_less(a: Seq<char>, b: Seq<char>) -> bool
    decreases a.len(),
{
    if b.len() == 0 {
        false
    } else if a.len() == 0 {
        true
    } else if a[0] != b[0] {
        a[0] < b[0]
    } else {
        text_less(a.drop_first(), b.drop_first())
    }
}

/// Two texts of which neither is before the other are the same.
pub proof fn lemma_text_total(a: Seq<char>, b: Seq<char>)
    ensures
        text_less(a, b) || text_less(b, a) || a == b,
        !(text_less(a, b) && text_less(b, a)),
        a == b ==> !text_less(a, b),
    decreases a.len(),
{
    if a.len() == 0 || b.len() == 0 {
        if a.len() == 0 && b.len() == 0 {
            assert(a =~= b);
        }
    } else if a[0] == b[0] {
        lemma_text_total(a.drop_first(), b.drop_first());
        if a.drop_first() == b.drop_first() {
            assert(a =~= seq![a[0]] + a.drop_first());
            assert(b =~= seq![b[0]] + b.drop_first());
        }
    }
}

/// The order of texts carries over.
pub proof fn lemma_text_transitive(a: Seq<char>, b: Seq<char>, c: Seq<char>)
    requires
        text_less(a, b),
        text_less(b, c),
    ensures
        text_less(a, c),
    decreases a.len(),
{
    if a.len() > 0 && b.len() > 0 && c.len() > 0 && a[0] == b[0] && b[0] == c[0] {
        lemma_text_transitive(a.drop_first(), b.drop_first(), c.drop_first());
    }
}

/// Whether `a` is before `b`.
pub fn str_less(a: &str, b: &str) -> (r: bool)
    ensures
        r == text_less(a@, b@),
{
    let x = chars_of(a);
    let y = chars_of(b);
    let mut i: usize = 0;
    assert(a@.skip(0) =~= a@);
    assert(b@.skip(0) =~= b@);
    while i < x.len() && i < y.len()
        invariant
            x@ == a@,
            y@ == b@,
            i <= x@.len(),
            i <= y@.len(),
            text_less(a@, b@) == text_less(a@.skip(i as int), b@.skip(i as int)),
        decreases x@.len() - i,
    {
        if x[i] != y[i] {
            return x[i] < y[i];
        }
        assert(a@.skip(i as int).drop_first() =~= a@.skip(i + 1));
        assert(b@.skip(i as int).drop_first() =~= b@.skip(i + 1));
        i = i + 1;
    }
    i < y.len()
}

// ---------------------------------------------------------------------------
// Lists and tables
// ---------------------------------------------------------------------------

/// Whether `s` is one of `list`.
pub fn list_contains(list: &[String], s: &str) -> (r: bool)
    ensures
        r == texts(list@).contains(s@),
{
    let mut i: usize = 0;
    while i < list.len()
        invariant
            i <= list@.len(),
            forall|j: int| 0 <= j < i ==> (#[trigger] list@[j])@ != s@,
        decreases list@.len() - i,
    {
        if str_eq(list[i].as_str(), s) {
            assert(texts(list@)[i as int] == s@);
            return true;
        }
        i = i + 1;
    }
    assert forall|j: int| 0 <= j < texts(list@).len() implies texts(list@)[j] != s@ by {
        assert(list@[j]@ != s@);
    }
    false
}

/// Whether `s` is one of `list`.
pub fn strs_contain(list: &[&str], s: &str) -> (r: bool)
    ensures
        r == str_texts(list@).contains(s@),
{
    let mut i: usize = 0;
    while i < list.len()
        invariant
            i <= list@.len(),
            forall|j: int| 0 <= j < i ==> (#[trigger] list@[j])@ != s@,
        decreases list@.len() - i,
    {
        if str_eq(list[i], s) {
            assert(str_texts(list@)[i as int] == s@);
            return true;
        }
        i = i + 1;
    }
    assert forall|j: int| 0 <= j < str_texts(list@).len() implies str_texts(list@)[j] != s@ by {
        assert(list@[j]@ != s@);
    }
    false
}

/// Puts `s` behind the last of a list.
pub fn push_text(list: &mut Vec<String>, s: &str)
    ensures
        texts(final(list)@) == texts(old(list)@).push(s@),
{
    let owned = s.to_owned();
    proof {
        lemma_texts_push(list@, owned);
    }
    list.push(owned);
}

/// The same strings in a list of their own.
pub fn copy_list(list: &[String]) -> (r: Vec<String>)
    ensures
        r@ == list@,
{
    let mut out: Vec<String> = Vec::new();
    let mut i: usize = 0;
    while i < list.len()
        invariant
            i <= list@.len(),
            out@ == list@.take(i as int),
        decreases list@.len() - i,
    {
        out.push(list[i].clone());
        assert(out@ =~= list@.take(i + 1));
        i = i + 1;
    }
    assert(out@ =~= list@);
    out
}

/// What a table holds under `key`: the first entry with that name.
pub open spec fn lookup<V>(table: Seq<(String, V)>, key: Seq<char>) -> Option<V>
    decreases table.len(),
{
    if table.len() == 0 {
        None
    } else if table[0].0@ == key {
        Some(table[0].1)
    } else {
        lookup(table.drop_first(), key)
    }
}

/// Whether no name stands twice in a table.
pub open spec fn distinct_keys<V>(table: Seq<(String, V)>) -> bool {
    forall|i: int, j: int|
        0 <= i < j < table.len() ==> (#[trigger] table[i]).0@ != (#[trigger] table[j]).0@
}

/// Where no name stands twice, an entry is what the table holds under its name.
pub proof fn lemma_lookup_entry<V>(table: Seq<(String, V)>, i: int)
    requires
        distinct_keys(table),
        0 <= i < table.len(),
    ensures
        lookup(table, table[i].0@) == Some(table[i].1),
    decreases table.len(),
{
    if i > 0 {
        let rest = table.drop_first();
        assert(table[0].0@ != table[i].0@);
        assert forall|a: int, b: int| 0 <= a < b < rest.len() implies (#[trigger] rest[a]).0@ != (
        #[trigger] rest[b]).0@ by {
            assert(table[a + 1].0@ != table[b + 1].0@);
        }
        lemma_lookup_entry(rest, i - 1);
        assert(rest[i - 1] == table[i]);
    }
}

/// What `table` holds under `key`.
pub fn find_entry<'a, V>(table: &'a Vec<(String, V)>, key: &str) -> (r: Option<&'a V>)
    ensures
        match r {
            Some(v) => lookup(table@, key@) == Some(*v),
            None => lookup(table@, key@) is None,
        },
{
    let mut i: usize = 0;
    assert(table@.skip(0) =~= table@);
    while i < table.len()
        invariant
            i <= table@.len(),
            lookup(table@, key@) == lookup(table@.skip(i as int), key@),
        decreases table@.len() - i,
    {
        if str_eq(table[i].0.as_str(), key) {
            return Some(&table[i].1);
        }
        assert(table@.skip(i as int).drop_first() =~= table@.skip(i + 1));
        i = i + 1;
    }
    None
}

/// Whether a list of texts stands in order, equal ones side by side.
pub open spec fn texts_sorted(s: Seq<Seq<char>>) -> bool {
    forall|i: int, j: int| 0 <= i < j < s.len() ==> !text_less(#[trigger] s[j], #[trigger] s[i])
}

/// Puts `s` into a sorted list, where it belongs.
pub fn insert_sorted(list: &mut Vec<String>, s: String)
    requires
        texts_sorted(texts(old(list)@)),
    ensures
        texts_sorted(texts(final(list)@)),
        texts(final(list)@).to_multiset() == texts(old(list)@).to_multiset().insert(s@),
{
    broadcast use vstd::seq_lib::group_to_multiset_ensures;

    let mut p: usize = list.len();
    while p > 0 && str_less(s.as_str(), list[p - 1].as_str())
        invariant
            *list == *old(list),
            p <= list@.len(),
            forall|j: int| p <= j < list@.len() ==> text_less(s@, (#[trigger] list@[j])@),
        decreases p,
    {
        p = p - 1;
    }
    proof {
        let a = texts(list@);
        let b = a.insert(p as int, s@);
        assert(texts(list@.insert(p as int, s)) =~= b);
        assert forall|i: int, j: int| 0 <= i < j < b.len() implies !text_less(
            #[trigger] b[j],
            #[trigger] b[i],
        ) by {
            if i == p {
                assert(b[j] == a[j - 1]);
                assert(text_less(s@, list@[j - 1]@));
                lemma_text_total(s@, a[j - 1]);
            } else if j == p {
                if i < p - 1 {
                    assert(!text_less(a[p - 1], a[i]));
                    if text_less(s@, a[i]) {
                        lemma_text_total(a[i], a[p - 1]);
                        if a[i] != a[p - 1] {
                            lemma_text_transitive(s@, a[i], a[p - 1]);
                        }
                    }
                }
            } else {
                let x = if i < p {
                    i
                } else {
                    i - 1
                };
                let y = if j < p {
                    j
                } else {
                    j - 1
                };
                assert(!text_less(a[y], a[x]));
            }
        }
        assert(b.to_multiset() == a.to_multiset().insert(s@));
    }
    list.insert(p, s);
}

} // verus!
