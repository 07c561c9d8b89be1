//! The connection to a remote.

use crate::config::RemoteConfig;
use crate::number::{decimal, decimal_text};
use crate::text::{copy_list, opt_text, push_text, texts};
use vstd::prelude::*;
use vstd::string::*;

verus! {

/// Why there is no connection.
#[derive(Debug, Clone, PartialEq, Eq)]
pub enum TransportError {
    /// `ssh` could not be started, as the text says.
    Spawn { destination: String, source: String },
}

impl TransportError {
    /// The text of the error.
    pub open spec fn text(self) -> Seq<char> {
        match self {
            TransportError::Spawn { destination, source } => "SSH connect to "@ + destination@
                + ": "@ + source@,
        }
    }

    /// The text of the error.
    pub fn message(&self) -> (r: String)
        ensures
            r@ == self.text(),
    {
        match self {
            TransportError::Spawn { destination, source } => "SSH connect to ".to_owned().concat(
                destination.as_str(),
            ).concat(": ").concat(source.as_str()),
        }
    }
}

/// The arguments that an optional setting adds: a flag and the setting.
pub open spec fn flag_args(flag: Seq<char>, setting: Option<Seq<char>>) -> Seq<Seq<char>> {
    match setting {
        Some(value) => seq![flag, value],
        None => seq![],
    }
}

/// The text of an optional port.
pub open spec fn port_text(port: Option<u16>) -> Option<Seq<char>> {
    match port {
        Some(p) => Some(decimal_text(p as int)),
        None => None,
    }
}

/// The arguments for `ssh`: port, user and key as far as they are set, the options in
/// order, the host, and what to run there.
pub open spec fn ssh_args(remote: RemoteConfig, extra: Seq<Seq<char>>) -> Seq<Seq<char>> {
    flag_args("-p"@, port_text(remote.port)) + flag_args("-l"@, opt_text(remote.user))
        + flag_args("-i"@, opt_text(remote.ssh_key)) + texts(remote.ssh_opts@) + extra + seq![
        remote.host@,
        "zrb server"@,
    ]
}

/// How a remote is called in an error: the host, and the port where it is set.
pub open spec fn destination_text(remote: RemoteConfig) -> Seq<char> {
    match remote.port {
        Some(port) => remote.host@ + ":"@ + decimal_text(port as int),
        None => remote.host@,
    }
}

fn put_flag(out: &mut Vec<String>, flag: &str, setting: &Option<String>)
    ensures
        texts(final(out)@) == texts(old(out)@) + flag_args(flag@, opt_text(*setting)),
{
    match setting {
        Some(value) => {
            push_text(out, flag);
            push_text(out, value.as_str());
        },
        None => {},
    }
    assert(texts(out@) =~= texts(old(out)@) + flag_args(flag@, opt_text(*setting)));
}

/// The arguments for `ssh`, and how the remote is called in an error.
pub fn connect(remote: &RemoteConfig, extra_opts: &[String]) -> (r: (Vec<String>, String))
    ensures
        texts(r.0@) == ssh_args(*remote, texts(extra_opts@)),
        r.1@ == destination_text(*remote),
{
    let mut args: Vec<String> = Vec::new();
    let port = match remote.port {
        Some(p) => Some(decimal(p as u128)),
        None => None,
    };
    assert(opt_text(port) == port_text(remote.port));
    put_flag(&mut args, "-p", &port);
    put_flag(&mut args, "-l", &remote.user);
    put_flag(&mut args, "-i", &remote.ssh_key);
    let ghost flags = texts(args@);
    let mut opts = copy_list(remote.ssh_opts.as_slice());
    args.append(&mut opts);
    let mut extra = copy_list(extra_opts);
    args.append(&mut extra);
    assert(texts(args@) =~= flags + texts(remote.ssh_opts@) + texts(extra_opts@));
    push_text(&mut args, remote.host.as_str());
    push_text(&mut args, "zrb server");
    assert(texts(args@) =~= ssh_args(*remote, texts(extra_opts@)));
    let destination = match port {
        Some(p) => remote.host.clone().concat(":").concat(p.as_str()),
        None => remote.host.clone(),
    };
    (args, destination)
}

} // verus!
