//! Taking a snapshot.

use crate::snapshot::naming::{name_at, new_name};
use crate::text::{cut, lemma_cut, split_once};
use crate::time::Timestamp;
use crate::zfs::client::ZfsCommand;
use vstd::prelude::*;
use vstd::string::*;

verus! {

/// Whether `full` is the name of a new snapshot of `dataset`, and `command` takes it.
pub open spec fn takes(
    dataset: Seq<char>,
    now: Timestamp,
    full: Seq<char>,
    command: ZfsCommand,
) -> bool {
    &&& full == name_at(dataset, now)
    &&& match command {
        ZfsCommand::CreateSnapshot { dataset: d, name } => d@ == dataset && match cut(full, '@') {
            Some((_, n)) => name@ == n,
            None => false,
        },
        _ => false,
    }
}

/// The name of a new snapshot of `dataset`, and the command that takes it.
pub fn snapshot(dataset: &str, now: Timestamp) -> (r: (String, ZfsCommand))
    requires
        now.valid(),
    ensures
        takes(dataset@, now, r.0@, r.1),
{
    let full = new_name(dataset, now);
    proof {
        lemma_cut(full@, '@');
        assert(full@[dataset@.len() as int] == '@');
    }
    match split_once(full.as_str(), '@') {
        Some((_, name)) => (
            full,
            ZfsCommand::CreateSnapshot { dataset: dataset.to_owned(), name },
        ),
        None => {
            assert(full@.contains('@'));
            (
                full,
                ZfsCommand::CreateSnapshot { dataset: dataset.to_owned(), name: String::new() },
            )
        },
    }
}

} // verus!
