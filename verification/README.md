# zrb

ZFS remote backup: snapshots are taken on a source, shipped over SSH to a remote,
and pruned on both by a tiered retention policy.

Taking a snapshot and sending it are two commands. `zrb snapshot` takes one. `zrb send`
takes none: it sends the newest managed snapshot that there is, and where there is none
it says to run `zrb snapshot` first.

The crate has two parts.

- `src/` is the library. It holds every decision: snapshot names and their order,
  the retention policy, the messages and the chunked stream, both sides of a
  session, transfer holds, pruning, the parsing of what `zfs` prints, progress and
  the state of the display. It is written in Verus and proved against the contracts
  in it.
- `app/` is ordinary Rust around it: the command line, processes, pipes, the
  terminal, configuration files and the clock. It carries out what the library
  answers and hands back what came of it.

Sessions (`ops::send`, `ops::server`) and pruning (`ops::prune`) are state machines.
Each has a step function from a state and an event to the next state and an action,
and a relation that says what a step is. The laws about them are stated over that
relation: nothing is streamed before both sides agree, nothing is received that no
admissible request asked for, a client that is turned away is told so, a dry run
changes nothing and shows what a run destroys.

What is not proved is listed where it stands: the functions of `chrono` and of the
standard library that the library calls are declared with contracts of their own, in
`time.rs`, `text.rs`, `zfs/client.rs` and `zfs/estimator.rs`.

Numbers with a fraction, in bandwidths, size estimates, speeds and times, follow the
arithmetic of 64-bit binary floating point. `double.rs` states and computes it on whole numbers.
