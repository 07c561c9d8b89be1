//! The size of a stream, as `zfs send -n -v` estimates it.

use crate::double::BITS_54;
use crate::number::{decimal_text, is_digit, lemma_decimal_text};
use crate::numeral::{below_zero, magnitude, numeral, scale_numeral, whole_numbers_are_exact};
use crate::text::{
    chars_of, contains_text, find_from, find_text, lines, lines_of, occurs, str_eq, string_of,
    texts, trim, trimmed,
};
use vstd::prelude::*;
use vstd::string::*;

verus! {

/// Why there is no estimate.
#[derive(Debug, Clone, PartialEq, Eq)]
pub enum EstimatorError {
    /// No line gives one.
    LineMissing,
    /// The line gives this in its place.
    MalformedValue(String),
}

impl EstimatorError {
    /// The text of the error.
    pub open spec fn text(self) -> Seq<char> {
        match self {
            EstimatorError::LineMissing =>
                "expected 'estimated size is <value><unit>' line not found in output"@,
            EstimatorError::MalformedValue(v) => "could not parse size value '"@ + v@ + "'"@,
        }
    }

    /// The text of the error.
    pub fn message(&self) -> (r: String)
        ensures
            r@ == self.text(),
    {
        match self {
            EstimatorError::LineMissing =>
                "expected 'estimated size is <value><unit>' line not found in output".to_owned(),
            EstimatorError::MalformedValue(v) => "could not parse size value '".to_owned().concat(
                v.as_str(),
            ).concat("'"),
        }
    }
}

/// What `char::is_alphabetic` says of a character.
pub uninterp spec fn alphabetic(c: char) -> bool;

/// `char::is_alphabetic`: a function of the character, and among the ASCII
/// characters true of the letters alone.
#[verifier::external_body]
fn is_alphabetic(c: char) -> (r: bool)
    ensures
        r == alphabetic(c),
        c <= '\u{7f}' ==> r == ('a' <= c <= 'z' || 'A' <= c <= 'Z'),
{
    c.is_alphabetic()
}

/// Whether of the ASCII characters in a text the letters alone count as alphabetic.
pub open spec fn letters_known(s: Seq<char>) -> bool {
    forall|i: int|
        0 <= i < s.len() && s[i] <= '\u{7f}' ==> alphabetic(#[trigger] s[i]) == ('a' <= s[i] <= 'z'
            || 'A' <= s[i] <= 'Z')
}

/// The first position at or after `i` where a letter stands; the end without one.
pub open spec fn letter_from(s: Seq<char>, i: int) -> int
    decreases s.len() - i,
{
    if i < 0 || i >= s.len() || alphabetic(s[i]) {
        i
    } else {
        letter_from(s, i + 1)
    }
}

/// Bytes in a unit.
pub open spec fn unit_size(unit: Seq<char>) -> Option<int> {
    if unit == ""@ || unit == "B"@ {
        Some(1)
    } else if unit == "K"@ || unit == "KB"@ {
        Some(1_024)
    } else if unit == "M"@ || unit == "MB"@ {
        Some(1_048_576)
    } else if unit == "G"@ || unit == "GB"@ {
        Some(1_073_741_824)
    } else if unit == "T"@ || unit == "TB"@ {
        Some(1_099_511_627_776)
    } else {
        None
    }
}

/// Bytes that a size such as `1.23G` stands for: a number up to the first letter,
/// and a unit. A size below zero counts as none at all.
pub open spec fn size_value(s: Seq<char>) -> Option<int> {
    let p = letter_from(s, 0);
    match (numeral(trimmed(s.take(p))), unit_size(trimmed(s.skip(p)))) {
        (Some((negative, n)), Some(unit)) => Some(
            if below_zero(negative, n) {
                0
            } else {
                magnitude(n, unit, 1)
            },
        ),
        _ => None,
    }
}

fn parse_unit(unit: &str) -> (r: Option<u64>)
    ensures
        match r {
            Some(n) => unit_size(unit@) == Some(n as int) && 1 <= n <= 1_099_511_627_776,
            None => unit_size(unit@) is None,
        },
{
    if str_eq(unit, "") || str_eq(unit, "B") {
        Some(1)
    } else if str_eq(unit, "K") || str_eq(unit, "KB") {
        Some(1_024)
    } else if str_eq(unit, "M") || str_eq(unit, "MB") {
        Some(1_048_576)
    } else if str_eq(unit, "G") || str_eq(unit, "GB") {
        Some(1_073_741_824)
    } else if str_eq(unit, "T") || str_eq(unit, "TB") {
        Some(1_099_511_627_776)
    } else {
        None
    }
}

/// Bytes that a size such as `1.23G` stands for.
pub fn parse_size_str(s: &str) -> (r: Option<u64>)
    ensures
        match r {
            Some(n) => size_value(s@) == Some(n as int),
            None => size_value(s@) is None,
        },
        letters_known(s@),
{
    let cs = chars_of(s);
    let n: usize = cs.len();
    let mut p: usize = n;
    let mut i: usize = n;
    while i > 0
        invariant
            cs@ == s@,
            n == cs@.len(),
            i <= p <= n,
            p == letter_from(s@, i as int),
            letters_known(s@.skip(i as int)),
        decreases i,
    {
        i = i - 1;
        let ghost tail = s@.skip(i + 1);
        if is_alphabetic(cs[i]) {
            p = i;
        }
        assert forall|j: int| 0 <= j < s@.skip(i as int).len() && s@.skip(i as int)[j]
            <= '\u{7f}' implies alphabetic(#[trigger] s@.skip(i as int)[j]) == ('a' <= s@.skip(
            i as int,
        )[j] <= 'z' || 'A' <= s@.skip(i as int)[j] <= 'Z') by {
            if j > 0 {
                assert(s@.skip(i as int)[j] == tail[j - 1]);
            }
        }
    }
    assert(s@.skip(0) =~= s@);
    let number = string_of(cs.as_slice(), 0, p);
    let unit = string_of(cs.as_slice(), p, n);
    assert(number@ =~= s@.take(p as int));
    assert(unit@ =~= s@.skip(p as int));
    let number = trim(number.as_str());
    let unit = trim(unit.as_str());
    match parse_unit(unit.as_str()) {
        None => None,
        Some(scale) => match scale_numeral(number.as_str(), scale, 1) {
            None => None,
            Some((below, whole)) => if below {
                Some(0)
            } else {
                Some(whole)
            },
        },
    }
}

/// The first of `all` in which `needle` occurs.
pub open spec fn first_with(all: Seq<Seq<char>>, needle: Seq<char>) -> Option<Seq<char>>
    decreases all.len(),
{
    if all.len() == 0 {
        None
    } else if occurs(all[0], needle) {
        Some(all[0])
    } else {
        first_with(all.drop_first(), needle)
    }
}

/// What stands in `line` behind the first `mark`, up to the next one.
pub open spec fn behind(line: Seq<char>, mark: Seq<char>) -> Option<Seq<char>> {
    match find_from(line, mark, 0) {
        Some(i) => match find_from(line, mark, i + mark.len()) {
            Some(j) => Some(line.subrange(i + mark.len(), j)),
            None => Some(line.skip(i + mark.len())),
        },
        None => None,
    }
}

/// The value that the output gives as the size.
pub open spec fn size_text(output: Seq<char>) -> Option<Seq<char>> {
    match first_with(lines_of(output), "estimated size is"@) {
        Some(line) => match behind(line, "estimated size is "@) {
            Some(rest) => Some(trimmed(rest)),
            None => None,
        },
        None => None,
    }
}

fn text_behind(line: &str, mark: &str) -> (r: Option<String>)
    ensures
        match r {
            Some(rest) => behind(line@, mark@) == Some(rest@),
            None => behind(line@, mark@) is None,
        },
{
    let cs = chars_of(line);
    let ms = chars_of(mark);
    let n: usize = cs.len();
    match find_text(cs.as_slice(), ms.as_slice(), 0) {
        None => None,
        Some(i) => {
            let from: usize = i + ms.len();
            match find_text(cs.as_slice(), ms.as_slice(), from) {
                Some(j) => Some(string_of(cs.as_slice(), from, j)),
                None => {
                    let rest = string_of(cs.as_slice(), from, n);
                    assert(rest@ =~= line@.skip(from as int));
                    Some(rest)
                },
            }
        },
    }
}

/// The estimated size of a stream, in bytes, from what `zfs send -n -v` printed.
pub fn parse_estimated_size(output: &str) -> (r: Result<u64, EstimatorError>)
    ensures
        match size_text(output@) {
            None => r == Err::<u64, EstimatorError>(EstimatorError::LineMissing),
            Some(text) => match size_value(text) {
                Some(size) => r is Ok && r->Ok_0 == size,
                None => match r {
                    Err(EstimatorError::MalformedValue(v)) => v@ == text,
                    _ => false,
                },
            },
        },
        size_text(output@) is Some ==> letters_known(size_text(output@)->0),
{
    let all = lines(output);
    let mut i: usize = 0;
    assert(texts(all@).skip(0) =~= texts(all@));
    while i < all.len()
        invariant
            i <= all@.len(),
            texts(all@) == lines_of(output@),
            first_with(lines_of(output@), "estimated size is"@) == first_with(
                texts(all@).skip(i as int),
                "estimated size is"@,
            ),
        decreases all@.len() - i,
    {
        let line = &all[i];
        let ghost left = texts(all@).skip(i as int);
        assert(left[0] == line@);
        assert(left.drop_first() =~= texts(all@).skip(i + 1));
        if contains_text(line.as_str(), "estimated size is") {
            return match text_behind(line.as_str(), "estimated size is ") {
                None => Err(EstimatorError::LineMissing),
                Some(rest) => {
                    let value = trim(rest.as_str());
                    match parse_size_str(value.as_str()) {
                        Some(size) => Ok(size),
                        None => Err(EstimatorError::MalformedValue(value)),
                    }
                },
            };
        }
        i = i + 1;
    }
    Err(EstimatorError::LineMissing)
}

// ---------------------------------------------------------------------------
// Laws
// ---------------------------------------------------------------------------

/// The first letter stands behind all that is none.
pub proof fn lemma_letter_behind_digits(s: Seq<char>, i: int, n: int)
    requires
        0 <= i <= n <= s.len(),
        forall|j: int| 0 <= j < n ==> !alphabetic(#[trigger] s[j]),
        n < s.len() ==> alphabetic(s[n]),
    ensures
        letter_from(s, i) == n,
    decreases n - i,
{
    if i < n {
        assert(!alphabetic(s[i]));
        lemma_letter_behind_digits(s, i + 1, n);
    }
}

/// A whole number with a unit behind it stands for that many of the unit, as long as
/// the product is below 2 to the power of 53.
pub proof fn whole_sizes_are_exact(n: int, unit: Seq<char>)
    requires
        n >= 0,
        unit_size(unit) is Some,
        n * unit_size(unit)->0 < BITS_54,
        letters_known(decimal_text(n) + unit),
    ensures
        size_value(decimal_text(n) + unit) == Some(n * unit_size(unit)->0),
{
    let digits = decimal_text(n);
    let s = digits + unit;
    let p = digits.len() as int;
    let size = unit_size(unit)->0;
    lemma_decimal_text(n);
    reveal_strlit("");
    reveal_strlit("B");
    reveal_strlit("K");
    reveal_strlit("KB");
    reveal_strlit("M");
    reveal_strlit("MB");
    reveal_strlit("G");
    reveal_strlit("GB");
    reveal_strlit("T");
    reveal_strlit("TB");
    assert(forall|j: int| 0 <= j < unit.len() ==> 'A' <= #[trigger] unit[j] <= 'Z');
    assert forall|j: int| 0 <= j < p implies !alphabetic(#[trigger] s[j]) by {
        assert(s[j] == digits[j]);
        assert(is_digit(digits[j]));
    }
    if p < s.len() {
        assert(s[p] == unit[0]);
    }
    lemma_letter_behind_digits(s, 0, p);
    assert(s.take(p) =~= digits);
    assert(s.skip(p) =~= unit);
    assert(is_digit(digits[0]) && is_digit(digits[p - 1]));
    assert(trimmed(digits) == digits);
    assert(trimmed(unit) == unit) by {
        if unit.len() > 0 {
            assert('A' <= unit[0] <= 'Z' && 'A' <= unit[unit.len() - 1] <= 'Z');
        }
    }
    whole_numbers_are_exact(n, size, 1);
}

} // verus!
