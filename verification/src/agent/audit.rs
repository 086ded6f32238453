//! Startup permission audit: probes each runner once and the spool dir, so
//! a mis-configured install fails loudly instead of running blind.

use vstd::prelude::*;

use crate::agent::cmd;
use crate::agent::cmd::{CommandRunner, Runners};
use crate::text;

verus! {

/// One audit row.
pub struct AuditRow {
    pub name: &'static str,
    pub ok: bool,
    pub detail: String,
}

/// What an `AuditRow` says.
#[verifier::ext_equal]
pub struct RowView {
    pub name: Seq<char>,
    pub ok: bool,
    pub detail: Seq<char>,
}

impl View for AuditRow {
    type V = RowView;

    open spec fn view(&self) -> RowView {
        RowView { name: self.name@, ok: self.ok, detail: self.detail@ }
    }
}

/// What each row of a list says.
pub open spec fn row_views(v: Seq<AuditRow>) -> Seq<RowView> {
    v.map_values(|r: AuditRow| r@)
}

/// The row of a probed command.
pub open spec fn probe_row(name: Seq<char>, fine: Seq<char>, out: Result<String, String>) -> RowView {
    match out {
        Ok(_) => RowView { name, ok: true, detail: fine },
        Err(e) => RowView { name, ok: false, detail: "failed: "@ + e@ },
    }
}

/// The row of the spool directory.
pub open spec fn spool_row(writable: bool) -> RowView {
    RowView {
        name: "spool"@,
        ok: writable,
        detail: if writable {
            "spool writable"@
        } else {
            "failed: spool dir unreadable"@
        },
    }
}

/// The arguments that probe the service manager.
pub open spec fn sys_args() -> Seq<Seq<char>> {
    seq![
        "list-units"@,
        "--type=service"@,
        "--all"@,
        "--no-legend"@,
        "--plain"@,
        "-n"@,
        "1"@,
    ]
}

/// The arguments that probe the journal.
pub open spec fn journal_args() -> Seq<Seq<char>> {
    seq!["--no-pager"@, "-o"@, "json"@, "-n"@, "1"@]
}

/// The arguments that probe docker.
pub open spec fn docker_args() -> Seq<Seq<char>> {
    seq!["ps"@, "-q"@]
}

/// The row of a command's answer.
pub fn row_of(name: &'static str, fine: &str, out: &Result<String, String>) -> (r: AuditRow)
    ensures
        r@ == probe_row(name@, fine@, *out),
{
    match out {
        Ok(_) => AuditRow { name, ok: true, detail: text::owned(fine) },
        Err(e) => AuditRow { name, ok: false, detail: text::owned("failed: ").concat(e.as_str()) },
    }
}

/// Probe every external dependency the agent uses at runtime. The spool
/// directory was probed by writing to it. Whatever the commands answer, the
/// rows are those of the answers.
pub fn audit<S: CommandRunner, J: CommandRunner, D: CommandRunner, O>(
    runners: &Runners<S, J, D, O>,
    spool_writable: bool,
) -> (rows: Vec<AuditRow>)
    ensures
        exists|sys: Result<String, String>, journal: Result<String, String>, docker: Result<
            String,
            String,
        >|
            {
                &&& #[trigger] cmd::answers(runners.sys, sys_args(), sys)
                &&& #[trigger] cmd::answers(runners.journal, journal_args(), journal)
                &&& #[trigger] cmd::answers(runners.docker, docker_args(), docker)
                &&& row_views(rows@) == seq![
                    probe_row("systemctl"@, "service states readable"@, sys),
                    probe_row("journalctl"@, "journal readable"@, journal),
                    probe_row("docker"@, "docker reachable"@, docker),
                    spool_row(spool_writable),
                ]
            },
{
    let mut a: Vec<&str> = Vec::new();
    a.push("list-units");
    a.push("--type=service");
    a.push("--all");
    a.push("--no-legend");
    a.push("--plain");
    a.push("-n");
    a.push("1");
    assert(cmd::arg_views(a@) =~= sys_args());
    let sys = cmd::run_args(&runners.sys, &a);
    let mut b: Vec<&str> = Vec::new();
    b.push("--no-pager");
    b.push("-o");
    b.push("json");
    b.push("-n");
    b.push("1");
    assert(cmd::arg_views(b@) =~= journal_args());
    let journal = cmd::run_args(&runners.journal, &b);
    let mut c: Vec<&str> = Vec::new();
    c.push("ps");
    c.push("-q");
    assert(cmd::arg_views(c@) =~= docker_args());
    let docker = cmd::run_args(&runners.docker, &c);

    let mut rows: Vec<AuditRow> = Vec::new();
    rows.push(row_of("systemctl", "service states readable", &sys));
    rows.push(row_of("journalctl", "journal readable", &journal));
    rows.push(row_of("docker", "docker reachable", &docker));
    rows.push(
        AuditRow {
            name: "spool",
            ok: spool_writable,
            detail: text::owned(
                if spool_writable {
                    "spool writable"
                } else {
                    "failed: spool dir unreadable"
                },
            ),
        },
    );
    assert(row_views(rows@) =~= seq![
        probe_row("systemctl"@, "service states readable"@, sys),
        probe_row("journalctl"@, "journal readable"@, journal),
        probe_row("docker"@, "docker reachable"@, docker),
        spool_row(spool_writable),
    ]);
    rows
}

} // verus!
