//! What the two configuration files say.

use crate::retention::policy::RetentionConfig;
use crate::numeral::{below_zero, lowered, magnitude, numeral, scale_numeral, word_is};
use crate::text::{
    chars_of, distinct_keys, insert_sorted, lemma_text_total, lemma_text_transitive, str_eq, str_less,
    string_of, text_less, texts, texts_sorted, trim, trimmed,
};
use vstd::prelude::*;
use vstd::string::*;

verus! {

/// Why a configuration could not be had.
#[derive(Debug, Clone, PartialEq, Eq)]
pub enum ConfigError {
    /// The file could not be read, as the text says.
    Io(String),
    /// The file is not the TOML it should be, as the text says.
    Toml(String),
}

impl ConfigError {
    /// The text of the error.
    pub open spec fn text(self) -> Seq<char> {
        match self {
            ConfigError::Io(e) => "cannot read config file: "@ + e@,
            ConfigError::Toml(e) => "cannot parse config: "@ + e@,
        }
    }

    /// The text of the error.
    pub fn message(&self) -> (r: String)
        ensures
            r@ == self.text(),
    {
        match self {
            ConfigError::Io(e) => "cannot read config file: ".to_owned().concat(e.as_str()),
            ConfigError::Toml(e) => "cannot parse config: ".to_owned().concat(e.as_str()),
        }
    }
}

// ---------------------------------------------------------------------------
// Bandwidth
// ---------------------------------------------------------------------------

/// Why a text is not a bandwidth.
#[derive(Debug, Clone, PartialEq, Eq)]
pub enum BandwidthError {
    /// This part of it should be a number.
    Invalid(String),
    /// This part of it is a number below zero.
    Negative(String),
}

/// Whether `s` ends with `suffix`.
pub open spec fn has_suffix(s: Seq<char>, suffix: Seq<char>) -> bool {
    suffix.len() <= s.len() && s.skip(s.len() - suffix.len()) == suffix
}

/// A bandwidth without its unit, and what to divide by to have bytes: `bit` and
/// `bits` in any case are eighths of a byte, and `B`, `b` or nothing bytes.
pub open spec fn without_unit(s: Seq<char>) -> (Seq<char>, int) {
    if has_suffix(lowered(s), "bits"@) {
        (s.take(s.len() - 4), 8)
    } else if has_suffix(lowered(s), "bit"@) {
        (s.take(s.len() - 3), 8)
    } else if s.len() > 0 && (s.last() == 'B' || s.last() == 'b') {
        (s.drop_last(), 1)
    } else {
        (s, 1)
    }
}

/// A bandwidth without its prefix, and what that multiplies with.
pub open spec fn without_prefix(s: Seq<char>) -> (Seq<char>, int) {
    if s.len() == 0 {
        (s, 1)
    } else if s.last() == 'k' || s.last() == 'K' {
        (s.drop_last(), 1_000)
    } else if s.last() == 'm' || s.last() == 'M' {
        (s.drop_last(), 1_000_000)
    } else if s.last() == 'g' || s.last() == 'G' {
        (s.drop_last(), 1_000_000_000)
    } else {
        (s, 1)
    }
}

/// Whether `suffix`, in lower case, ends `cs` in any case.
fn ends_with_word(cs: &Vec<char>, suffix: &str) -> (r: bool)
    ensures
        r == has_suffix(lowered(cs@), suffix@),
{
    let n: usize = cs.len();
    let m: usize = suffix.unicode_len();
    if m > n {
        return false;
    }
    let r = word_is(cs, n - m, suffix);
    assert(lowered(cs@.skip(n - m)) =~= lowered(cs@).skip(n - m));
    r
}

/// Whether `r` is what a bandwidth is read as: bytes per second, or an error that names
/// the part that should be a number.
pub open spec fn reads_bandwidth(s: Seq<char>, r: Result<u64, BandwidthError>) -> bool {
    let (rest, div) = without_unit(trimmed(s));
    let (number, scale) = without_prefix(rest);
    match numeral(number) {
        None => match r {
            Err(BandwidthError::Invalid(e)) => e@ == number,
            _ => false,
        },
        Some((negative, n)) => if below_zero(negative, n) {
            match r {
                Err(BandwidthError::Negative(e)) => e@ == number,
                _ => false,
            }
        } else {
            r is Ok && r->Ok_0 == magnitude(n, scale, div)
        },
    }
}

/// A bandwidth in bytes per second, such as `10M`, `100Mbit` or `1.5G`: a number,
/// perhaps a prefix (`k`, `m`, `g`, in either case, for thousands, millions and
/// thousands of millions), perhaps a unit (`bit` or `bits`, or `B`). The number is
/// a floating-point number, and so is the product of which the whole part is
/// taken.
pub fn parse_bandwidth(s: &str) -> (r: Result<u64, BandwidthError>)
    ensures
        reads_bandwidth(s@, r),
{
    let t = trim(s);
    let cs = chars_of(t.as_str());
    let n: usize = cs.len();
    proof {
        reveal_strlit("bits");
        reveal_strlit("bit");
    }
    let bits = ends_with_word(&cs, "bits");
    let bit = ends_with_word(&cs, "bit");
    let (end, div): (usize, u64) = if bits {
        (n - 4, 8)
    } else if bit {
        (n - 3, 8)
    } else if n > 0 && (cs[n - 1] == 'B' || cs[n - 1] == 'b') {
        (n - 1, 1)
    } else {
        (n, 1)
    };
    assert(without_unit(t@) == (t@.take(end as int), div as int)) by {
        assert(t@.take(n as int) =~= t@);
        if n > 0 {
            assert(t@.take(n - 1) =~= t@.drop_last());
        }
    }
    let ghost rest = t@.take(end as int);
    let (stop, scale): (usize, u64) = if end == 0 {
        (end, 1)
    } else if cs[end - 1] == 'k' || cs[end - 1] == 'K' {
        (end - 1, 1_000)
    } else if cs[end - 1] == 'm' || cs[end - 1] == 'M' {
        (end - 1, 1_000_000)
    } else if cs[end - 1] == 'g' || cs[end - 1] == 'G' {
        (end - 1, 1_000_000_000)
    } else {
        (end, 1)
    };
    let number = string_of(cs.as_slice(), 0, stop);
    assert(without_prefix(rest) == (number@, scale as int)) by {
        assert(t@.subrange(0, end as int) =~= rest);
        if end > 0 {
            assert(rest.last() == cs@[end - 1]);
            assert(t@.subrange(0, end - 1) =~= rest.drop_last());
        }
    }
    match scale_numeral(number.as_str(), scale, div) {
        None => Err(BandwidthError::Invalid(number)),
        Some((below, whole)) => if below {
            Err(BandwidthError::Negative(number))
        } else {
            Ok(whole)
        },
    }
}

// ---------------------------------------------------------------------------
// Files
// ---------------------------------------------------------------------------

/// A remote to send to.
#[derive(Debug, Clone, PartialEq, Eq)]
pub struct RemoteConfig {
    pub host: String,
    pub port: Option<u16>,
    pub user: Option<String>,
    pub ssh_key: Option<String>,
    pub ssh_opts: Vec<String>,
    pub zfs_send_opts: Vec<String>,
    /// Most bytes to send in a second.
    pub bandwidth_limit: Option<u64>,
}

/// The section on the source itself.
#[derive(Debug, Clone, PartialEq, Eq)]
pub struct SourceSection {
    pub name: String,
}

/// The target dataset on each remote, by the remote's name.
pub type RemoteTargets = Vec<(String, String)>;

/// The configuration of a host that sends.
#[derive(Debug, Clone, PartialEq, Eq)]
pub struct SourceConfig {
    pub source: SourceSection,
    /// The remotes, by name.
    pub remotes: Vec<(String, RemoteConfig)>,
    /// The targets of each dataset, by the dataset's name.
    pub datasets: Vec<(String, RemoteTargets)>,
    pub retention: RetentionConfig,
}

/// The names in a table.
pub open spec fn keys<V>(table: Seq<(String, V)>) -> Seq<Seq<char>> {
    table.map_values(|e: (String, V)| e.0@)
}

/// Whether `names` are the configured datasets, in the order of their names.
pub open spec fn lists_datasets(config: SourceConfig, names: Seq<Seq<char>>) -> bool {
    &&& texts_sorted(names)
    &&& names.to_multiset() == keys(config.datasets@).to_multiset()
    &&& config.valid() ==> texts_ascending(names)
}

impl SourceConfig {
    /// Whether every name in a table stands there once.
    pub open spec fn valid(self) -> bool {
        &&& distinct_keys(self.remotes@)
        &&& distinct_keys(self.datasets@)
        &&& forall|i: int|
            0 <= i < self.datasets@.len() ==> distinct_keys((#[trigger] self.datasets@[i]).1@)
    }

    /// The client name this host declares.
    pub fn name(&self) -> (r: &str)
        ensures
            r@ == self.source.name@,
    {
        self.source.name.as_str()
    }

    /// The configured datasets, in the order of their names.
    pub fn configured_datasets(&self) -> (r: Vec<String>)
        ensures
            lists_datasets(*self, texts(r@)),
    {
        let mut out: Vec<String> = Vec::new();
        let mut i: usize = 0;
        let ghost all = keys(self.datasets@);
        proof {
            assert(texts(out@) =~= Seq::empty());
            assert(all.take(0) =~= Seq::empty());
        }
        while i < self.datasets.len()
            invariant
                i <= self.datasets@.len(),
                all == keys(self.datasets@),
                texts_sorted(texts(out@)),
                texts(out@).to_multiset() == all.take(i as int).to_multiset(),
            decreases self.datasets@.len() - i,
        {
            insert_sorted(&mut out, self.datasets[i].0.clone());
            proof {
                let some = all.take(i as int);
                assert(all.take(i + 1) =~= some.push(self.datasets@[i as int].0@));
                vstd::seq_lib::to_multiset_build(some, self.datasets@[i as int].0@);
            }
            i = i + 1;
        }
        assert(all.take(all.len() as int) =~= all);
        proof {
            if self.valid() {
                lemma_distinct_keys(self.datasets@);
                lemma_sorted_distinct(texts(out@), all);
            }
        }
        out
    }
}

proof fn lemma_distinct_keys<V>(table: Seq<(String, V)>)
    requires
        distinct_keys(table),
    ensures
        keys(table).no_duplicates(),
{
    assert forall|i: int, j: int| 0 <= i < keys(table).len() && 0 <= j < keys(table).len() && i
        != j implies keys(table)[i] != keys(table)[j] by {
        assert(keys(table)[i] == table[i].0@ && keys(table)[j] == table[j].0@);
        if i < j {
            assert(table[i].0@ != table[j].0@);
        } else {
            assert(table[j].0@ != table[i].0@);
        }
    }
}

/// A sorted list of texts that are all different is ascending.
proof fn lemma_sorted_distinct(sorted: Seq<Seq<char>>, all: Seq<Seq<char>>)
    requires
        texts_sorted(sorted),
        sorted.to_multiset() == all.to_multiset(),
        all.no_duplicates(),
    ensures
        texts_ascending(sorted),
{
    all.lemma_multiset_has_no_duplicates();
    sorted.lemma_multiset_has_no_duplicates_conv();
    assert forall|i: int, j: int| 0 <= i < j < sorted.len() implies text_less(
        #[trigger] sorted[i],
        #[trigger] sorted[j],
    ) by {
        lemma_text_total(sorted[i], sorted[j]);
        assert(!text_less(sorted[j], sorted[i]));
        assert(sorted[i] != sorted[j]);
    }
}

/// The section on the server itself.
#[derive(Debug, Clone, PartialEq, Eq)]
pub struct ServerSection {
    pub resume_hold_days: u32,
}

/// What a client may do.
#[derive(Debug, Clone, PartialEq, Eq)]
pub struct ClientConfig {
    /// The datasets it may send to.
    pub allow: Vec<String>,
    pub zfs_receive_opts: Vec<String>,
}

/// The configuration of a host that receives.
#[derive(Debug, Clone, PartialEq, Eq)]
pub struct ServerConfig {
    pub server: ServerSection,
    /// The clients, by name.
    pub clients: Vec<(String, ClientConfig)>,
    pub retention: RetentionConfig,
}

/// Whether a list of texts stands in order, with none twice.
pub open spec fn texts_ascending(s: Seq<Seq<char>>) -> bool {
    forall|i: int, j: int| 0 <= i < j < s.len() ==> text_less(#[trigger] s[i], #[trigger] s[j])
}

/// Puts `s` into an ascending list unless it stands there.
fn insert_new(list: &mut Vec<String>, s: &String)
    requires
        texts_ascending(texts(old(list)@)),
    ensures
        texts_ascending(texts(final(list)@)),
        forall|x: Seq<char>| #[trigger]
            texts(final(list)@).contains(x) <==> x == s@ || texts(old(list)@).contains(x),
{
    let mut p: usize = list.len();
    while p > 0 && str_less(s.as_str(), list[p - 1].as_str())
        invariant
            *list == *old(list),
            p <= list@.len(),
            forall|j: int| p <= j < list@.len() ==> text_less(s@, (#[trigger] list@[j])@),
        decreases p,
    {
        p = p - 1;
    }
    let ghost a = texts(list@);
    if p > 0 && str_eq(list[p - 1].as_str(), s.as_str()) {
        assert(a[p - 1] == s@);
        return ;
    }
    proof {
        let b = a.insert(p as int, s@);
        assert(texts(list@.insert(p as int, *s)) =~= b);
        if p > 0 {
            lemma_text_total(a[p - 1], s@);
        }
        assert forall|i: int, j: int| 0 <= i < j < b.len() implies text_less(
            #[trigger] b[i],
            #[trigger] b[j],
        ) by {
            if i == p {
                assert(b[j] == a[j - 1]);
                assert(text_less(s@, list@[j - 1]@));
            } else if j == p {
                if i < p - 1 {
                    assert(text_less(a[i], a[p - 1]));
                    lemma_text_transitive(a[i], a[p - 1], s@);
                }
            } else {
                let x = if i < p {
                    i
                } else {
                    i - 1
                };
                let y = if j < p {
                    j
                } else {
                    j - 1
                };
                assert(text_less(a[x], a[y]));
            }
        }
        assert forall|x: Seq<char>| #[trigger] b.contains(x) <==> x == s@ || a.contains(x) by {
            if b.contains(x) {
                let k = choose|k: int| 0 <= k < b.len() && b[k] == x;
                if k < p {
                    assert(a[k] == x);
                } else if k > p {
                    assert(a[k - 1] == x);
                }
            }
            if a.contains(x) {
                let k = choose|k: int| 0 <= k < a.len() && a[k] == x;
                if k < p {
                    assert(b[k] == x);
                } else {
                    assert(b[k + 1] == x);
                }
            }
            assert(b[p as int] == s@);
        }
    }
    list.insert(p, s.clone());
}

impl ServerConfig {
    /// Whether some client may send to `dataset`.
    pub open spec fn allows(self, dataset: Seq<char>) -> bool {
        exists|i: int|
            0 <= i < self.clients@.len() && texts((#[trigger] self.clients@[i]).1.allow@).contains(
                dataset,
            )
    }

    /// Days for which an interrupted transfer is kept.
    pub fn resume_hold_days(&self) -> (r: u32)
        ensures
            r == self.server.resume_hold_days,
    {
        self.server.resume_hold_days
    }

    /// The datasets that some client may send to, each once, in the order of their
    /// names.
    pub fn configured_datasets(&self) -> (r: Vec<String>)
        ensures
            texts_ascending(texts(r@)),
            forall|x: Seq<char>| #[trigger] texts(r@).contains(x) <==> self.allows(x),
    {
        let mut out: Vec<String> = Vec::new();
        let mut i: usize = 0;
        while i < self.clients.len()
            invariant
                i <= self.clients@.len(),
                texts_ascending(texts(out@)),
                forall|x: Seq<char>| #[trigger]
                    texts(out@).contains(x) <==> exists|k: int|
                        0 <= k < i && texts((#[trigger] self.clients@[k]).1.allow@).contains(x),
            decreases self.clients@.len() - i,
        {
            let allow = &self.clients[i].1.allow;
            let ghost before = texts(out@);
            let mut j: usize = 0;
            while j < allow.len()
                invariant
                    j <= allow@.len(),
                    texts_ascending(texts(out@)),
                    forall|x: Seq<char>| #[trigger]
                        texts(out@).contains(x) <==> before.contains(x) || texts(allow@).take(
                            j as int,
                        ).contains(x),
                decreases allow@.len() - j,
            {
                let ghost out0 = texts(out@);
                insert_new(&mut out, &allow[j]);
                proof {
                    let some = texts(allow@);
                    assert(some.take(j + 1) =~= some.take(j as int).push(some[j as int]));
                    assert forall|x: Seq<char>| #[trigger]
                        texts(out@).contains(x) <==> before.contains(x) || some.take(
                            j + 1,
                        ).contains(x) by {
                        let t = some.take(j as int);
                        let u = some.take(j + 1);
                        if u.contains(x) {
                            let k = choose|k: int| 0 <= k < u.len() && u[k] == x;
                            if k < j {
                                assert(t[k] == x);
                            }
                        }
                        if t.contains(x) {
                            let k = choose|k: int| 0 <= k < t.len() && t[k] == x;
                            assert(u[k] == x);
                        }
                        assert(u[j as int] == some[j as int]);
                        assert(out0.contains(x) <==> before.contains(x) || t.contains(x));
                    }
                }
                j = j + 1;
            }
            proof {
                assert(texts(allow@).take(allow@.len() as int) =~= texts(allow@));
                assert forall|x: Seq<char>| #[trigger] texts(out@).contains(x) <==> exists|k: int|
                    0 <= k < i + 1 && texts((#[trigger] self.clients@[k]).1.allow@).contains(x) by {
                    if texts(allow@).contains(x) {
                        assert(texts(self.clients@[i as int].1.allow@).contains(x));
                    }
                }
            }
            i = i + 1;
        }
        out
    }
}

} // verus!
