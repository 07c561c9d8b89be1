//! The connection to a remote.

use crate::config::RemoteConfig;
use crate::number::decimal_text;
use crate::ssh::transport::{destination_text, ssh_args};
use crate::text::texts;
use vstd::prelude::*;
use vstd::string::*;

verus! {

/// Every setting reaches `ssh` on its own, whatever the others are: a port behind `-p`, a
/// user behind `-l`, a key behind `-i`, each in front of the options. Behind these come the
/// options of the remote, the extra ones, the host, and what to run there; and nothing
/// else is given.
pub proof fn each_setting_reaches_ssh(remote: RemoteConfig, extra: Seq<Seq<char>>)
    ensures
        ({
            let args = ssh_args(remote, extra);
            let p = if remote.port is Some {
                2int
            } else {
                0
            };
            let l = if remote.user is Some {
                2int
            } else {
                0
            };
            let k = if remote.ssh_key is Some {
                2int
            } else {
                0
            };
            let n = remote.ssh_opts@.len();
            &&& args.len() == p + l + k + n + extra.len() + 2
            &&& remote.port is Some ==> args[0] == "-p"@ && args[1] == decimal_text(
                remote.port->0 as int,
            )
            &&& remote.user is Some ==> args[p] == "-l"@ && args[p + 1] == remote.user->0@
            &&& remote.ssh_key is Some ==> args[p + l] == "-i"@ && args[p + l + 1]
                == remote.ssh_key->0@
            &&& forall|i: int|
                0 <= i < n ==> args[p + l + k + i] == (#[trigger] remote.ssh_opts@[i])@
            &&& forall|i: int|
                0 <= i < extra.len() ==> args[p + l + k + n + i] == #[trigger] extra[i]
            &&& args[args.len() - 2] == remote.host@
            &&& args[args.len() - 1] == "zrb server"@
        }),
{
    let args = ssh_args(remote, extra);
    let all = texts(remote.ssh_opts@);
    assert forall|i: int| 0 <= i < remote.ssh_opts@.len() implies all[i] == (
    #[trigger] remote.ssh_opts@[i])@ by {}
}

/// What one setting adds does not depend on the others: with and without it, the rest of
/// the arguments is the same.
pub proof fn settings_do_not_touch_each_other(
    with: RemoteConfig,
    without: RemoteConfig,
    extra: Seq<Seq<char>>,
)
    requires
        with.host@ == without.host@,
        texts(with.ssh_opts@) == texts(without.ssh_opts@),
    ensures
        with.port is Some && without.port is None && with.user == without.user && with.ssh_key
            == without.ssh_key ==> ssh_args(with, extra).skip(2) == ssh_args(without, extra),
        with.port == without.port && with.port is None && with.user is Some && without.user is None
            && with.ssh_key == without.ssh_key ==> ssh_args(with, extra).skip(2) == ssh_args(
            without,
            extra,
        ),
        with.port == without.port && with.port is None && with.user == without.user
            && with.user is None && with.ssh_key is Some && without.ssh_key is None ==> ssh_args(
            with,
            extra,
        ).skip(2) == ssh_args(without, extra),
{
    let a = ssh_args(with, extra).skip(2);
    let b = ssh_args(without, extra);
    if with.port is Some && without.port is None && with.user == without.user && with.ssh_key
        == without.ssh_key {
        assert(a =~= b);
    }
    if with.port == without.port && with.port is None && with.user is Some && without.user is None
        && with.ssh_key == without.ssh_key {
        assert(a =~= b);
    }
    if with.port == without.port && with.port is None && with.user == without.user
        && with.user is None && with.ssh_key is Some && without.ssh_key is None {
        assert(a =~= b);
    }
}

/// An error names the host, and the port where one is set.
pub proof fn errors_name_host_and_port(remote: RemoteConfig)
    ensures
        remote.port is None ==> destination_text(remote) == remote.host@,
        remote.port is Some ==> destination_text(remote) == remote.host@.push(':') + decimal_text(
            remote.port->0 as int,
        ),
{
    reveal_strlit(":");
    if remote.port is Some {
        assert(destination_text(remote) =~= remote.host@.push(':') + decimal_text(
            remote.port->0 as int,
        ));
    }
}

} // verus!
