//! Which host this is.

use vstd::prelude::*;

use crate::common;
use crate::common::Config;
use crate::text;

verus! {

/// The id in the text of an id file: none when it is blank.
pub open spec fn id_in(t: Option<Seq<char>>) -> Option<Seq<char>> {
    match t {
        Some(s) => if text::trim(s).len() > 0 {
            Some(text::trim(s))
        } else {
            None
        },
        None => None,
    }
}

/// The id in the text of an id file, if it could be read.
pub fn resolve_from_text(t: Option<String>) -> (r: Option<String>)
    ensures
        text::opt_view(r) == id_in(text::opt_view(t)),
{
    let id = text::trimmed(t?.as_str());
    if id.as_str().is_empty() {
        None
    } else {
        Some(id)
    }
}

/// The first id that there is: the machine id, then that of dbus, then the
/// hostname.
pub open spec fn host_of(
    machine: Option<Seq<char>>,
    dbus: Option<Seq<char>>,
    hostname: Option<Seq<char>>,
) -> Seq<char> {
    if let Some(id) = id_in(machine) {
        id
    } else if let Some(id) = id_in(dbus) {
        id
    } else if let Some(name) = hostname {
        text::trim(name)
    } else {
        "unknown-host"@
    }
}

/// Machine id from the texts of /etc/machine-id, then
/// /var/lib/dbus/machine-id, then /etc/hostname as last resort.
pub fn resolve(machine: Option<String>, dbus: Option<String>, hostname: Option<String>) -> (r:
    String)
    ensures
        r@ == host_of(text::opt_view(machine), text::opt_view(dbus), text::opt_view(hostname)),
{
    if let Some(id) = resolve_from_text(machine) {
        return id;
    }
    if let Some(id) = resolve_from_text(dbus) {
        return id;
    }
    match hostname {
        Some(n) => text::trimmed(n.as_str()),
        None => text::owned("unknown-host"),
    }
}

/// The host id to ship: the configured one where it names a host, otherwise
/// the resolved one.
pub fn agent_host_id(cfg: &Config, resolved: String) -> (r: String)
    ensures
        r@ == (if common::names_a_host(cfg.host_id@) {
            cfg.host_id@
        } else {
            resolved@
        }),
{
    if cfg.host_id_valid() {
        cfg.host_id.clone()
    } else {
        resolved
    }
}

/// A host is named by its machine id, else by that of the bus, else by its
/// name, without white space around; an id that is blank does not count. Only
/// a host that shows nothing has no name of its own.
pub proof fn law_hosts_are_named(
    machine: Option<Seq<char>>,
    dbus: Option<Seq<char>>,
    hostname: Option<Seq<char>>,
)
    ensures
        ({
            let r = host_of(machine, dbus, hostname);
            let m = machine is Some && text::trim(machine->0).len() > 0;
            let d = dbus is Some && text::trim(dbus->0).len() > 0;
            &&& m ==> r == text::trim(machine->0)
            &&& !m && d ==> r == text::trim(dbus->0)
            &&& !m && !d && hostname is Some ==> r == text::trim(hostname->0)
            &&& !m && !d && hostname is None ==> r == "unknown-host"@
        }),
{
}

} // verus!
