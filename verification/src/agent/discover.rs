//! Auto-discovery for the install checklist: every detection is a function of
//! what lies below a root, of a runner, or of /proc.

use vstd::prelude::*;

use crate::agent::cmd;
use crate::agent::cmd::{CommandRunner, Runners};
use crate::agent::procfs;
use crate::agent::procfs::{ProcFs, TcpEntry};
use crate::seqs;
use crate::text;

verus! {

/// What a path below the root is.
#[derive(Debug, Clone, Copy, PartialEq, Eq, Structural)]
pub enum EntryKind {
    File,
    Dir,
    Other,
}

/// One existing path below the root, and its text where it was read.
pub struct RootEntry {
    pub path: String,
    pub kind: EntryKind,
    pub text: Option<String>,
}

/// The existing paths below a root that the detections ask for.
pub struct RootFs {
    pub entries: Vec<RootEntry>,
}

/// The first entry with a path.
pub open spec fn entry_in(s: Seq<RootEntry>, path: Seq<char>) -> Option<RootEntry>
    decreases s.len(),
{
    if s.len() == 0 {
        None
    } else if s[0].path@ == path {
        Some(s[0])
    } else {
        entry_in(s.skip(1), path)
    }
}

impl RootFs {
    /// The entry of a path.
    pub open spec fn entry(&self, path: Seq<char>) -> Option<RootEntry> {
        entry_in(self.entries@, path)
    }

    /// A path is a file.
    pub open spec fn has_file(&self, path: Seq<char>) -> bool {
        self.entry(path) matches Some(e) && e.kind is File
    }

    /// A path is a directory.
    pub open spec fn has_dir(&self, path: Seq<char>) -> bool {
        self.entry(path) matches Some(e) && e.kind is Dir
    }

    /// The text of a path.
    pub open spec fn text_at(&self, path: Seq<char>) -> Option<Seq<char>> {
        match self.entry(path) {
            Some(e) => text::opt_view(e.text),
            None => None,
        }
    }

    fn find(&self, path: &str) -> (r: Option<&RootEntry>)
        ensures
            match r {
                Some(e) => self.entry(path@) == Some(*e),
                None => self.entry(path@) is None,
            },
    {
        let mut i: usize = 0;
        assert(self.entries@.skip(0) =~= self.entries@);
        while i < self.entries.len()
            invariant
                i <= self.entries@.len(),
                entry_in(self.entries@.skip(i as int), path@) == entry_in(self.entries@, path@),
            decreases self.entries@.len() - i,
        {
            assert(self.entries@.skip(i as int)[0] == self.entries@[i as int]);
            if text::same(self.entries[i].path.as_str(), path) {
                return Some(&self.entries[i]);
            }
            assert(self.entries@.skip(i as int).skip(1) =~= self.entries@.skip(i + 1));
            i = i + 1;
        }
        None
    }

    fn is_file(&self, path: &str) -> (r: bool)
        ensures
            r == self.has_file(path@),
    {
        match self.find(path) {
            Some(e) => e.kind == EntryKind::File,
            None => false,
        }
    }

    fn is_dir(&self, path: &str) -> (r: bool)
        ensures
            r == self.has_dir(path@),
    {
        match self.find(path) {
            Some(e) => e.kind == EntryKind::Dir,
            None => false,
        }
    }

    fn has_path(&self, path: &str) -> (r: bool)
        ensures
            r == (self.entry(path@) is Some),
    {
        self.find(path).is_some()
    }

    fn read(&self, path: &str) -> (r: Option<String>)
        ensures
            text::opt_view(r) == self.text_at(path@),
    {
        match self.find(path) {
            Some(e) => match &e.text {
                Some(t) => Some(t.clone()),
                None => None,
            },
            None => None,
        }
    }
}

/// One checklist item.
pub struct Check {
    pub label: &'static str,
    pub ok: bool,
    pub detail: String,
}

/// What a `Check` says.
#[verifier::ext_equal]
pub struct CheckView {
    pub label: Seq<char>,
    pub ok: bool,
    pub detail: Seq<char>,
}

impl View for Check {
    type V = CheckView;

    open spec fn view(&self) -> CheckView {
        CheckView { label: self.label@, ok: self.ok, detail: self.detail@ }
    }
}

/// What each item of a checklist says.
pub open spec fn check_views(v: Seq<Check>) -> Seq<CheckView> {
    v.map_values(|c: Check| c@)
}

/// The names of a list with commas between them; nothing for an empty list.
pub open spec fn listed(names: Seq<Seq<char>>) -> Option<Seq<char>> {
    if names.len() == 0 {
        None
    } else {
        Some(text::join(names, ", "@))
    }
}

fn list_of(names: &Vec<String>) -> (r: Option<String>)
    ensures
        text::opt_view(r) == listed(text::views(names@)),
{
    assert(text::views(names@).len() == names@.len());
    if names.len() == 0 {
        None
    } else {
        Some(text::joined(names, ", "))
    }
}

/// The name after the first "PRETTY_NAME=".
pub open spec fn pretty_name(ls: Seq<Seq<char>>) -> Option<Seq<char>>
    decreases ls.len(),
{
    if ls.len() == 0 {
        None
    } else {
        match text::after_prefix(ls[0], "PRETTY_NAME="@) {
            Some(v) => Some(text::trim_char(v, '"')),
            None => pretty_name(ls.skip(1)),
        }
    }
}

/// The distribution that the root names.
pub open spec fn distro(root: RootFs) -> Option<Seq<char>> {
    match (root.text_at("etc/os-release"@), root.text_at("os-release"@)) {
        (Some(t), _) => pretty_name(text::lines(t)),
        (None, Some(t)) => pretty_name(text::lines(t)),
        _ => None,
    }
}

/// The distribution's name, from etc/os-release or a top-level os-release.
pub fn detect_distro(root: &RootFs) -> (r: Option<String>)
    ensures
        text::opt_view(r) == distro(*root),
{
    let t = match root.read("etc/os-release") {
        Some(t) => t,
        None => root.read("os-release")?,
    };
    let ls = text::split_lines(t.as_str());
    let ghost all = text::lines(t@);
    let mut i: usize = 0;
    assert(all.skip(0) =~= all);
    while i < ls.len()
        invariant
            i <= ls@.len(),
            all == text::lines(t@),
            text::views(ls@) == all,
            pretty_name(all.skip(i as int)) == pretty_name(all),
            distro(*root) == pretty_name(all),
        decreases ls@.len() - i,
    {
        assert(all.skip(i as int)[0] == ls@[i as int]@);
        match text::strip_prefix(ls[i].as_str(), "PRETTY_NAME=") {
            Some(v) => {
                return Some(text::trimmed_of(v.as_str(), '"'));
            },
            None => {},
        }
        assert(all.skip(i as int).skip(1) =~= all.skip(i + 1));
        i = i + 1;
    }
    None
}

/// What the service manager's answer says of it.
pub open spec fn systemd_answer(out: Result<String, String>) -> Option<Seq<char>> {
    match out {
        Ok(t) => Some("systemd "@ + text::trim(t@)),
        Err(_) => None,
    }
}

/// Whether the system runs systemd, and how it does. Whatever the runner
/// answers, it is what the answer says.
pub fn detect_systemd<R: CommandRunner>(_root: &RootFs, runner: &R) -> (r: Option<String>)
    ensures
        exists|out: Result<String, String>| #[trigger]
            cmd::answers(*runner, seq!["is-system-running"@], out) && text::opt_view(r)
                == systemd_answer(out),
{
    let mut args: Vec<&str> = Vec::new();
    args.push("is-system-running");
    assert(cmd::arg_views(args@) =~= seq!["is-system-running"@]);
    let out = cmd::run_args(runner, &args);
    match out {
        Ok(t) => Some(text::owned("systemd ").concat(text::trimmed(t.as_str()).as_str())),
        Err(_) => None,
    }
}

/// What docker's answer says of it.
pub open spec fn docker_answer(out: Result<String, String>) -> Option<Seq<char>> {
    match out {
        Ok(_) => Some("docker available"@),
        Err(_) => None,
    }
}

/// The arguments that probe docker.
pub open spec fn docker_args() -> Seq<Seq<char>> {
    seq!["ps"@, "-q"@]
}

/// Whether docker answers.
pub fn detect_docker<R: CommandRunner>(runner: &R) -> (r: Option<String>)
    ensures
        exists|out: Result<String, String>| #[trigger]
            cmd::answers(*runner, docker_args(), out) && text::opt_view(r) == docker_answer(out),
{
    let mut args: Vec<&str> = Vec::new();
    args.push("ps");
    args.push("-q");
    assert(cmd::arg_views(args@) =~= docker_args());
    let out = cmd::run_args(runner, &args);
    match out {
        Ok(_) => Some(text::owned("docker available")),
        Err(_) => None,
    }
}

/// The reverse proxies that are configured.
pub open spec fn proxies(root: RootFs) -> Seq<Seq<char>> {
    let a = text::push_if(seq![], root.has_file("etc/nginx/nginx.conf"@), "nginx"@);
    let b = text::push_if(a, root.has_file("etc/apache2/apache2.conf"@), "apache2"@);
    text::push_if(b, root.has_file("etc/caddy/Caddyfile"@), "caddy"@)
}

/// The reverse proxies with a configuration file.
pub fn detect_proxies(root: &RootFs) -> (r: Option<String>)
    ensures
        text::opt_view(r) == listed(proxies(*root)),
{
    let mut found: Vec<String> = Vec::new();
    assert(text::views(found@) =~= seq![]);
    text::add_if(&mut found, root.is_file("etc/nginx/nginx.conf"), "nginx");
    text::add_if(&mut found, root.is_file("etc/apache2/apache2.conf"), "apache2");
    text::add_if(&mut found, root.is_file("etc/caddy/Caddyfile"), "caddy");
    list_of(&found)
}

/// A text when it is present.
pub open spec fn some_if(present: bool, t: Seq<char>) -> Option<Seq<char>> {
    if present {
        Some(t)
    } else {
        None
    }
}

/// Whether sshd is configured.
pub fn detect_ssh(root: &RootFs) -> (r: Option<String>)
    ensures
        text::opt_view(r) == some_if(
            root.has_file("etc/ssh/sshd_config"@),
            "sshd_config present"@,
        ),
{
    if root.is_file("etc/ssh/sshd_config") {
        Some(text::owned("sshd_config present"))
    } else {
        None
    }
}

/// The application log paths that exist.
pub open spec fn log_paths(root: RootFs) -> Seq<Seq<char>> {
    let a = text::push_if(seq![], root.entry("var/log/nginx"@) is Some, "var/log/nginx"@);
    let b = text::push_if(a, root.entry("var/log/apache2"@) is Some, "var/log/apache2"@);
    text::push_if(b, root.entry("var/log/syslog"@) is Some, "var/log/syslog"@)
}

/// The application logs that exist.
pub fn detect_logs(root: &RootFs) -> (r: Option<String>)
    ensures
        text::opt_view(r) == listed(log_paths(*root)),
{
    let mut found: Vec<String> = Vec::new();
    assert(text::views(found@) =~= seq![]);
    text::add_if(&mut found, root.has_path("var/log/nginx"), "var/log/nginx");
    text::add_if(&mut found, root.has_path("var/log/apache2"), "var/log/apache2");
    text::add_if(&mut found, root.has_path("var/log/syslog"), "var/log/syslog");
    list_of(&found)
}

/// Whether cron is configured.
pub fn detect_cron(root: &RootFs) -> (r: Option<String>)
    ensures
        text::opt_view(r) == some_if(
            root.has_dir("etc/cron.d"@) || root.has_file("etc/crontab"@),
            "cron configured"@,
        ),
{
    if root.is_dir("etc/cron.d") || root.is_file("etc/crontab") {
        Some(text::owned("cron configured"))
    } else {
        None
    }
}

/// The firewall tools that are installed.
pub open spec fn firewalls(root: RootFs) -> Seq<Seq<char>> {
    let a = text::push_if(seq![], root.has_file("usr/sbin/ufw"@), "ufw"@);
    let b = text::push_if(a, root.has_file("usr/sbin/iptables"@), "iptables"@);
    text::push_if(b, root.has_file("usr/sbin/nft"@), "nftables"@)
}

/// The firewall tools that are installed.
pub fn detect_firewall(root: &RootFs) -> (r: Option<String>)
    ensures
        text::opt_view(r) == listed(firewalls(*root)),
{
    let mut found: Vec<String> = Vec::new();
    assert(text::views(found@) =~= seq![]);
    text::add_if(&mut found, root.is_file("usr/sbin/ufw"), "ufw");
    text::add_if(&mut found, root.is_file("usr/sbin/iptables"), "iptables");
    text::add_if(&mut found, root.is_file("usr/sbin/nft"), "nftables");
    list_of(&found)
}

/// The cloud that the root names: by the product name, or by cloud-init.
pub open spec fn cloud(root: RootFs) -> Option<Seq<char>> {
    let dmi = match root.text_at("sys/class/dmi/id/product_name"@) {
        Some(t) => t,
        None => seq![],
    };
    if text::holds(dmi, "Amazon EC2"@) {
        Some("aws"@)
    } else if text::holds(dmi, "Google Compute Engine"@) {
        Some("gcp"@)
    } else if text::holds(dmi, "Microsoft Corporation"@) {
        Some("azure"@)
    } else if text::holds(dmi, "DigitalOcean"@) {
        Some("digitalocean"@)
    } else if root.has_dir("etc/cloud"@) {
        Some("cloud-init"@)
    } else {
        None
    }
}

/// The cloud that the host runs in.
pub fn detect_cloud(root: &RootFs) -> (r: Option<String>)
    ensures
        text::opt_view(r) == cloud(*root),
{
    let dmi = match root.read("sys/class/dmi/id/product_name") {
        Some(t) => t,
        None => {
            let e = String::new();
            assert(e@ =~= seq![]);
            e
        },
    };
    let d = dmi.as_str();
    if text::contains_text(d, "Amazon EC2") {
        Some(text::owned("aws"))
    } else if text::contains_text(d, "Google Compute Engine") {
        Some(text::owned("gcp"))
    } else if text::contains_text(d, "Microsoft Corporation") {
        Some(text::owned("azure"))
    } else if text::contains_text(d, "DigitalOcean") {
        Some(text::owned("digitalocean"))
    } else if root.is_dir("etc/cloud") {
        Some(text::owned("cloud-init"))
    } else {
        None
    }
}

/// The ports of the listening IPv4 sockets; nothing when they cannot be read.
pub open spec fn listening_ports(p: ProcFs) -> Option<Seq<u16>> {
    match p.file("net/tcp"@) {
        Ok(t) => Some(
            seqs::picked(
                procfs::tcp_table(t, false),
                |e: procfs::TcpView|
                    if e.state == "LISTEN"@ {
                        Some(e.local_port)
                    } else {
                        None
                    },
            ),
        ),
        Err(_) => None,
    }
}

fn ports_of(p: &ProcFs) -> (r: Option<Vec<u16>>)
    ensures
        match r {
            Some(v) => listening_ports(*p) == Some(v@),
            None => listening_ports(*p) is None,
        },
{
    let rows: Vec<TcpEntry> = match p.tcp_entries() {
        Ok(v) => v,
        Err(_) => {
            return None;
        },
    };
    let ghost all = procfs::tcp_views(rows@);
    let ghost f = |e: procfs::TcpView|
        if e.state == "LISTEN"@ {
            Some(e.local_port)
        } else {
            None
        };
    let mut out: Vec<u16> = Vec::new();
    let mut i: usize = 0;
    assert(out@ =~= seqs::picked(all.take(0), f));
    while i < rows.len()
        invariant
            i <= rows@.len(),
            all == procfs::tcp_views(rows@),
            f == (|e: procfs::TcpView|
                if e.state == "LISTEN"@ {
                    Some(e.local_port)
                } else {
                    None
                }),
            out@ == seqs::picked(all.take(i as int), f),
        decreases rows@.len() - i,
    {
        proof {
            seqs::lemma_take_step(all, i as int);
            assert(all[i as int] == rows@[i as int]@);
        }
        if text::same(rows[i].state.as_str(), "LISTEN") {
            out.push(rows[i].local_port);
        }
        i = i + 1;
    }
    assert(all.take(rows@.len() as int) =~= all);
    Some(out)
}

/// The smallest port of a list that is not empty.
pub open spec fn smallest(ports: Seq<u16>) -> u16
    decreases ports.len(),
{
    if ports.len() <= 1 {
        ports[0]
    } else if ports.last() < smallest(ports.drop_last()) {
        ports.last()
    } else {
        smallest(ports.drop_last())
    }
}

/// The smallest port is one of the ports, and none is smaller.
pub proof fn law_smallest(ports: Seq<u16>)
    requires
        ports.len() > 0,
    ensures
        ports.contains(smallest(ports)),
        forall|i: int| 0 <= i < ports.len() ==> smallest(ports) <= #[trigger] ports[i],
    decreases ports.len(),
{
    if ports.len() > 1 {
        let init = ports.drop_last();
        law_smallest(init);
        let k = choose|k: int| 0 <= k < init.len() && init[k] == smallest(init);
        assert(ports[k] == smallest(init));
        assert forall|i: int| 0 <= i < ports.len() implies smallest(ports) <= #[trigger] ports[i] by {
            if i < init.len() {
                assert(init[i] == ports[i]);
            }
        }
        assert(ports[ports.len() - 1] == ports.last());
    } else {
        assert(ports[0] == smallest(ports));
    }
}

/// The different ports of a list, in the order of their first coming.
pub open spec fn different(ports: Seq<u16>) -> Seq<u16>
    decreases ports.len(),
{
    if ports.len() == 0 {
        seq![]
    } else if different(ports.drop_last()).contains(ports.last()) {
        different(ports.drop_last())
    } else {
        different(ports.drop_last()).push(ports.last())
    }
}

/// The different ports are those of the list, each once.
pub proof fn law_different(ports: Seq<u16>)
    ensures
        different(ports).no_duplicates(),
        forall|x: u16| #[trigger] different(ports).contains(x) <==> ports.contains(x),
    decreases ports.len(),
{
    if ports.len() > 0 {
        let init = ports.drop_last();
        law_different(init);
        let d = different(init);
        let last = ports.last();
        assert(init.push(last) =~= ports);
        assert forall|x: u16| #[trigger] different(ports).contains(x) <==> ports.contains(x) by {
            if init.contains(x) {
                let k = choose|k: int| 0 <= k < init.len() && init[k] == x;
                assert(ports[k] == x);
            }
            if ports.contains(x) && x != last {
                let k = choose|k: int| 0 <= k < ports.len() && ports[k] == x;
                assert(init[k] == x);
            }
            assert(ports[ports.len() - 1] == last);
            assert(d.contains(x) <==> init.contains(x));
            if !d.contains(last) {
                let r = d.push(last);
                assert(r[d.len() as int] == last);
                if d.contains(x) {
                    let k = choose|k: int| 0 <= k < d.len() && d[k] == x;
                    assert(r[k] == x);
                }
                if r.contains(x) && x != last {
                    let k = choose|k: int| 0 <= k < r.len() && r[k] == x;
                    assert(d[k] == x);
                }
            }
        }
    }
}

/// How many ports listen, and the smallest of them; nothing when none does.
pub open spec fn ports_summary(ports: Seq<u16>) -> Option<Seq<char>> {
    if ports.len() == 0 {
        None
    } else {
        Some(
            text::dec(different(ports).len()) + " listening ports (e.g. "@ + text::dec(
                smallest(ports) as nat,
            ) + ")"@,
        )
    }
}

/// The listening IPv4 ports that /proc shows.
pub fn detect_ports(p: &ProcFs) -> (r: Option<String>)
    ensures
        text::opt_view(r) == (match listening_ports(*p) {
            Some(ports) => ports_summary(ports),
            None => None,
        }),
{
    let ports = ports_of(p)?;
    if ports.len() == 0 {
        return None;
    }
    let mut distinct: Vec<u16> = Vec::new();
    let mut min: u16 = ports[0];
    let mut i: usize = 0;
    assert(distinct@ =~= different(ports@.take(0)));
    while i < ports.len()
        invariant
            i <= ports@.len(),
            ports@.len() > 0,
            distinct@ == different(ports@.take(i as int)),
            i > 0 ==> min == smallest(ports@.take(i as int)),
            i == 0 ==> min == ports@[0],
        decreases ports@.len() - i,
    {
        proof {
            seqs::lemma_take_step(ports@, i as int);
        }
        let x: u16 = ports[i];
        if i > 0 && x < min {
            min = x;
        }
        if !has_port(&distinct, x) {
            distinct.push(x);
        }
        i = i + 1;
    }
    assert(ports@.take(ports@.len() as int) =~= ports@);
    Some(
        text::dec_u64(distinct.len() as u64).concat(" listening ports (e.g. ").concat(
            text::dec_u64(min as u64).as_str(),
        ).concat(")"),
    )
}

fn has_port(v: &Vec<u16>, x: u16) -> (r: bool)
    ensures
        r == v@.contains(x),
{
    let mut i: usize = 0;
    while i < v.len()
        invariant
            i <= v@.len(),
            forall|j: int| 0 <= j < i ==> #[trigger] v@[j] != x,
        decreases v@.len() - i,
    {
        if v[i] == x {
            assert(v@[i as int] == x);
            return true;
        }
        i = i + 1;
    }
    false
}

/// The databases whose ports listen.
pub open spec fn databases(ports: Seq<u16>) -> Seq<Seq<char>> {
    let a = text::push_if(seq![], ports.contains(5432), "postgres"@);
    let b = text::push_if(a, ports.contains(3306), "mysql"@);
    text::push_if(b, ports.contains(6379), "redis"@)
}

/// The databases whose IPv4 ports listen.
pub fn detect_databases(p: &ProcFs) -> (r: Option<String>)
    ensures
        text::opt_view(r) == (match listening_ports(*p) {
            Some(ports) => listed(databases(ports)),
            None => None,
        }),
{
    let listen = ports_of(p)?;
    let mut found: Vec<String> = Vec::new();
    assert(text::views(found@) =~= seq![]);
    text::add_if(&mut found, has_port(&listen, 5432), "postgres");
    text::add_if(&mut found, has_port(&listen, 3306), "mysql");
    text::add_if(&mut found, has_port(&listen, 6379), "redis");
    list_of(&found)
}

/// A checklist item of a detection: its detail, or what is said without one.
pub open spec fn item(label: Seq<char>, found: Option<Seq<char>>, none: Seq<char>) -> CheckView {
    CheckView {
        label,
        ok: found is Some,
        detail: match found {
            Some(d) => d,
            None => none,
        },
    }
}

/// A checklist item that always holds.
pub open spec fn given(label: Seq<char>, detail: Seq<char>) -> CheckView {
    CheckView { label, ok: true, detail }
}

/// The checklist in display order, given docker's two answers: whether it is
/// there goes by the first, what is said of it by the second.
pub open spec fn checklist(
    root: RootFs,
    p: ProcFs,
    docker: Result<String, String>,
    docker_detail: Result<String, String>,
) -> Seq<CheckView> {
    let ports = match listening_ports(p) {
        Some(v) => ports_summary(v),
        None => None,
    };
    let dbs = match listening_ports(p) {
        Some(v) => listed(databases(v)),
        None => None,
    };
    let ssh = some_if(root.has_file("etc/ssh/sshd_config"@), "sshd_config present"@);
    let cron = some_if(
        root.has_dir("etc/cron.d"@) || root.has_file("etc/crontab"@),
        "cron configured"@,
    );
    seq![
        given("Host registered"@, "agent heartbeats self-register"@),
        given("System metrics enabled"@, "procfs sensors active"@),
        given("Process monitoring enabled"@, "systemd + journald sensors"@),
        item("SSH monitoring enabled"@, ssh, "no sshd_config"@),
        item("Application logs discovered"@, listed(log_paths(root)), "no /var/log app dirs"@),
        item("Reverse proxy detected"@, listed(proxies(root)), "none"@),
        CheckView {
            label: "Docker detected"@,
            ok: docker_answer(docker) is Some,
            detail: match docker_answer(docker_detail) {
                Some(d) => d,
                None => "docker unavailable"@,
            },
        },
        item("Listening ports"@, ports, "none readable"@),
        item("Databases detected"@, dbs, "none"@),
        item("Scheduled jobs"@, cron, "none"@),
        item("Firewall"@, listed(firewalls(root)), "none"@),
        item("Cloud environment"@, cloud(root), "bare metal/unknown"@),
    ]
}

fn check_of(label: &'static str, found: Option<String>, none: &str) -> (c: Check)
    ensures
        c@ == item(label@, text::opt_view(found), none@),
{
    match found {
        Some(d) => Check { label, ok: true, detail: d },
        None => Check { label, ok: false, detail: text::owned(none) },
    }
}

/// Run every detection; returns the checklist in display order.
pub fn run_all<S, J, D: CommandRunner, O>(
    root: &RootFs,
    runners: &Runners<S, J, D, O>,
    p: &ProcFs,
) -> (r: Vec<Check>)
    ensures
        exists|a: Result<String, String>, b: Result<String, String>|
            {
                &&& #[trigger] cmd::answers(runners.docker, docker_args(), a)
                &&& #[trigger] cmd::answers(runners.docker, docker_args(), b)
                &&& check_views(r@) == checklist(*root, *p, a, b)
            },
{
    let mut r: Vec<Check> = Vec::new();
    r.push(
        Check {
            label: "Host registered",
            ok: true,
            detail: text::owned("agent heartbeats self-register"),
        },
    );
    r.push(
        Check {
            label: "System metrics enabled",
            ok: true,
            detail: text::owned("procfs sensors active"),
        },
    );
    r.push(
        Check {
            label: "Process monitoring enabled",
            ok: true,
            detail: text::owned("systemd + journald sensors"),
        },
    );
    r.push(check_of("SSH monitoring enabled", detect_ssh(root), "no sshd_config"));
    r.push(check_of("Application logs discovered", detect_logs(root), "no /var/log app dirs"));
    r.push(check_of("Reverse proxy detected", detect_proxies(root), "none"));
    let docker_ok = detect_docker(&runners.docker);
    let docker_detail = detect_docker(&runners.docker);
    let ghost a = choose|out: Result<String, String>| #[trigger]
        cmd::answers(runners.docker, docker_args(), out) && text::opt_view(docker_ok)
            == docker_answer(out);
    let ghost b = choose|out: Result<String, String>| #[trigger]
        cmd::answers(runners.docker, docker_args(), out) && text::opt_view(docker_detail)
            == docker_answer(out);
    r.push(
        Check {
            label: "Docker detected",
            ok: docker_ok.is_some(),
            detail: match docker_detail {
                Some(d) => d,
                None => text::owned("docker unavailable"),
            },
        },
    );
    r.push(check_of("Listening ports", detect_ports(p), "none readable"));
    r.push(check_of("Databases detected", detect_databases(p), "none"));
    r.push(check_of("Scheduled jobs", detect_cron(root), "none"));
    r.push(check_of("Firewall", detect_firewall(root), "none"));
    r.push(check_of("Cloud environment", detect_cloud(root), "bare metal/unknown"));
    assert(check_views(r@) =~= checklist(*root, *p, a, b));
    r
}

/// Some listening port of the IPv4 table is `port`.
pub open spec fn listens_on(p: ProcFs, port: u16) -> bool {
    p.file("net/tcp"@) matches Ok(t) && exists|i: int|
        0 <= i < procfs::tcp_table(t, false).len() && (#[trigger] procfs::tcp_table(
            t,
            false,
        )[i]).state == "LISTEN"@ && procfs::tcp_table(t, false)[i].local_port == port
}

proof fn lemma_listens(p: ProcFs, port: u16)
    ensures
        listens_on(p, port) <==> (listening_ports(p) matches Some(v) && v.contains(port)),
{
    if let Ok(t) = p.file("net/tcp"@) {
        let f = |e: procfs::TcpView|
            if e.state == "LISTEN"@ {
                Some(e.local_port)
            } else {
                None
            };
        let s = procfs::tcp_table(t, false);
        seqs::lemma_picked(s, f, port);
        if listens_on(p, port) {
            let i = choose|i: int|
                0 <= i < s.len() && (#[trigger] s[i]).state == "LISTEN"@ && s[i].local_port == port;
            assert(f(s[i]) == Some(port));
        }
        if listening_ports(p)->0.contains(port) {
            let i = choose|i: int| 0 <= i < s.len() && f(#[trigger] s[i]) == Some(port);
            assert(s[i].state == "LISTEN"@ && s[i].local_port == port);
        }
    }
}

/// What the checklist ticks: an item is ticked exactly when what it looks for
/// is there.
pub proof fn law_checklist_ticks_what_is_there(
    root: RootFs,
    p: ProcFs,
    docker: Result<String, String>,
    docker_detail: Result<String, String>,
)
    ensures
        ({
            let c = checklist(root, p, docker, docker_detail);
            &&& c.len() == 12
            &&& c[0].ok && c[1].ok && c[2].ok
            &&& c[3].label == "SSH monitoring enabled"@ && (c[3].ok <==> root.has_file(
                "etc/ssh/sshd_config"@,
            ))
            &&& c[4].label == "Application logs discovered"@ && (c[4].ok <==> root.entry(
                "var/log/nginx"@,
            ) is Some || root.entry("var/log/apache2"@) is Some || root.entry(
                "var/log/syslog"@,
            ) is Some)
            &&& c[5].label == "Reverse proxy detected"@ && (c[5].ok <==> root.has_file(
                "etc/nginx/nginx.conf"@,
            ) || root.has_file("etc/apache2/apache2.conf"@) || root.has_file(
                "etc/caddy/Caddyfile"@,
            ))
            &&& c[6].label == "Docker detected"@ && (c[6].ok <==> docker is Ok)
            &&& c[7].label == "Listening ports"@ && (c[7].ok <==> exists|port: u16| #[trigger]
                listens_on(p, port))
            &&& c[8].label == "Databases detected"@ && (c[8].ok <==> listens_on(p, 5432)
                || listens_on(p, 3306) || listens_on(p, 6379))
            &&& c[9].label == "Scheduled jobs"@ && (c[9].ok <==> root.has_dir("etc/cron.d"@)
                || root.has_file("etc/crontab"@))
            &&& c[10].label == "Firewall"@ && (c[10].ok <==> root.has_file("usr/sbin/ufw"@)
                || root.has_file("usr/sbin/iptables"@) || root.has_file("usr/sbin/nft"@))
            &&& c[11].label == "Cloud environment"@ && (c[11].ok <==> root.has_dir("etc/cloud"@)
                || (root.text_at("sys/class/dmi/id/product_name"@) matches Some(t) && (text::holds(
                t,
                "Amazon EC2"@,
            ) || text::holds(t, "Google Compute Engine"@) || text::holds(
                t,
                "Microsoft Corporation"@,
            ) || text::holds(t, "DigitalOcean"@))))
        }),
{
    assert forall|port: u16| listens_on(p, port) <==> (listening_ports(p) matches Some(v)
        && v.contains(port)) by {
        lemma_listens(p, port);
    }
    lemma_listens(p, 5432);
    lemma_listens(p, 3306);
    lemma_listens(p, 6379);
    if let Some(v) = listening_ports(p) {
        if v.len() > 0 {
            assert(v.contains(v[0]));
            lemma_listens(p, v[0]);
            assert(listens_on(p, v[0]));
        }
    }
    lemma_nothing_in_nothing("Amazon EC2"@);
    lemma_nothing_in_nothing("Google Compute Engine"@);
    lemma_nothing_in_nothing("Microsoft Corporation"@);
    lemma_nothing_in_nothing("DigitalOcean"@);
    reveal_strlit("Amazon EC2");
    reveal_strlit("Google Compute Engine");
    reveal_strlit("Microsoft Corporation");
    reveal_strlit("DigitalOcean");
}

proof fn lemma_nothing_in_nothing(pat: Seq<char>)
    ensures
        pat.len() > 0 ==> !text::holds(seq![], pat),
{
    if pat.len() > 0 && text::holds(seq![], pat) {
        let i = choose|i: int| text::occurs_at(seq![], pat, i);
        assert(i + pat.len() <= 0);
    }
}

/// What the checklist names: what was found, with commas between, in a fixed
/// order, and a cloud by its maker before anything else.
pub proof fn law_checklist_names_what_it_found(root: RootFs, dmi: Seq<char>, ports: Seq<u16>)
    ensures
        ({
            let nginx = root.has_file("etc/nginx/nginx.conf"@);
            let apache = root.has_file("etc/apache2/apache2.conf"@);
            let caddy = root.has_file("etc/caddy/Caddyfile"@);
            &&& nginx && !apache && !caddy ==> listed(proxies(root)) == Some("nginx"@)
            &&& !nginx && apache && !caddy ==> listed(proxies(root)) == Some("apache2"@)
            &&& !nginx && !apache && caddy ==> listed(proxies(root)) == Some("caddy"@)
            &&& nginx && !apache && caddy ==> listed(proxies(root)) == Some(
                "nginx"@ + ", "@ + "caddy"@,
            )
        }),
        ({
            let ufw = root.has_file("usr/sbin/ufw"@);
            let iptables = root.has_file("usr/sbin/iptables"@);
            let nft = root.has_file("usr/sbin/nft"@);
            &&& ufw && !iptables && !nft ==> listed(firewalls(root)) == Some("ufw"@)
            &&& !ufw && iptables && !nft ==> listed(firewalls(root)) == Some("iptables"@)
            &&& !ufw && !iptables && nft ==> listed(firewalls(root)) == Some("nftables"@)
            &&& ufw && iptables && !nft ==> listed(firewalls(root)) == Some(
                "ufw"@ + ", "@ + "iptables"@,
            )
        }),
        ({
            let (a, b, c) = (ports.contains(5432), ports.contains(3306), ports.contains(6379));
            &&& a && !b && !c ==> listed(databases(ports)) == Some("postgres"@)
            &&& !a && b && !c ==> listed(databases(ports)) == Some("mysql"@)
            &&& !a && !b && c ==> listed(databases(ports)) == Some("redis"@)
            &&& a && !b && c ==> listed(databases(ports)) == Some("postgres"@ + ", "@ + "redis"@)
        }),
        root.text_at("sys/class/dmi/id/product_name"@) == Some(dmi) ==> {
            &&& text::holds(dmi, "Amazon EC2"@) ==> cloud(root) == Some("aws"@)
            &&& !text::holds(dmi, "Amazon EC2"@) && text::holds(dmi, "Google Compute Engine"@)
                ==> cloud(root) == Some("gcp"@)
            &&& !text::holds(dmi, "Amazon EC2"@) && !text::holds(dmi, "Google Compute Engine"@)
                && text::holds(dmi, "Microsoft Corporation"@) ==> cloud(root) == Some("azure"@)
            &&& !text::holds(dmi, "Amazon EC2"@) && !text::holds(dmi, "Google Compute Engine"@)
                && !text::holds(dmi, "Microsoft Corporation"@) && text::holds(dmi, "DigitalOcean"@)
                ==> cloud(root) == Some("digitalocean"@)
        },
{
    reveal_with_fuel(text::join, 3);
    let e = Seq::<Seq<char>>::empty();
    assert(e.push("nginx"@).push("caddy"@).drop_last() =~= e.push("nginx"@));
    assert(e.push("ufw"@).push("iptables"@).drop_last() =~= e.push("ufw"@));
    assert(e.push("postgres"@).push("redis"@).drop_last() =~= e.push("postgres"@));
}

/// The distribution is what the first PRETTY_NAME line says, without quotes.
pub proof fn law_distribution_is_read(
    before: Seq<Seq<char>>,
    name: Seq<char>,
    after: Seq<Seq<char>>,
)
    requires
        forall|i: int|
            0 <= i < before.len() ==> !text::starts(#[trigger] before[i], "PRETTY_NAME="@),
        name.len() > 0,
        name[0] != '"',
        name.last() != '"',
    ensures
        pretty_name(before + seq!["PRETTY_NAME="@ + seq!['"'] + name + seq!['"']] + after) == Some(
            name,
        ),
        pretty_name(before) is None,
    decreases before.len(),
{
    let line = "PRETTY_NAME="@ + seq!['"'] + name + seq!['"'];
    let all = before + seq![line] + after;
    if before.len() > 0 {
        assert(all[0] == before[0]);
        assert(!text::starts(before[0], "PRETTY_NAME="@));
        let t = before.skip(1);
        assert forall|i: int| 0 <= i < t.len() implies !text::starts(
            #[trigger] t[i],
            "PRETTY_NAME="@,
        ) by {
            assert(t[i] == before[i + 1]);
        }
        law_distribution_is_read(t, name, after);
        assert(all.skip(1) =~= t + seq![line] + after);
    } else {
        assert(all[0] == line);
        let q = seq!['"'] + name + seq!['"'];
        assert(line =~= "PRETTY_NAME="@ + q);
        text::law_prefix_and_rest("PRETTY_NAME="@, q);
        text::law_quotes_are_taken_off(name);
    }
}

} // verus!
