//! The types that the agent, the server and the client share.

use vstd::prelude::*;

use crate::table;
use crate::text;

verus! {

/// How serious an event is.
#[derive(Debug, Clone, Copy, PartialEq, Eq, PartialOrd, Ord, Structural)]
pub enum Severity {
    Info,
    Warning,
    Critical,
}

/// The place of a severity in the order Info, Warning, Critical.
pub open spec fn rank(s: Severity) -> int {
    match s {
        Severity::Info => 0,
        Severity::Warning => 1,
        Severity::Critical => 2,
    }
}

/// What an event reports.
#[derive(Debug, Clone, Copy, PartialEq, Eq, Hash, Structural)]
pub enum EventKind {
    Reboot,
    ServiceFailed,
    ServiceCrashLoop,
    DiskHigh,
    InodeHigh,
    CpuSpike,
    MemHigh,
    LoadHigh,
    SwapHigh,
    NetDevErrors,
    /// Emitted by the server's uptime checker, not the agent.
    HostUnreachable,
    /// SSH login that succeeded (Info; Warning on a first-seen source IP).
    SshLogin,
    /// A failed SSH authentication attempt (Warning; episodes escalate to
    /// SshBruteForce).
    SshFailed,
    /// At least a threshold of failed SSH logins for one (user, ip) within a window.
    SshBruteForce,
    /// A login as root over ssh or su (Warning; Critical on first-seen IP).
    RootLogin,
    /// A successful sudo invocation (Info, timeline context).
    SudoUsed,
    /// A configured important file changed (Warning).
    FileChanged,
    /// A new listening port appeared (Warning).
    NewListeningPort,
    /// A connection to a previously unseen remote IP (Warning).
    NewOutboundConnection,
    /// Established-connection rate deviated from the rolling baseline (Warning).
    ConnectionRateSpike,
    /// Many distinct new remote endpoints within a short window (Warning).
    PortScanSpike,
    /// A systemd unit transitioned to active (Info, timeline context).
    ServiceRestarted,
    /// A host's heartbeat stopped arriving within the grace period (Critical).
    AgentHeartbeatMissing,
    /// A host's telemetry spool queue is growing (Warning).
    AgentQueueGrowing,
    /// Error-pattern count in application logs exceeded the threshold within
    /// the window (Warning).
    ErrorRateSpike,
    /// A tracked container stopped or exited (Warning).
    ContainerStopped,
    /// A container is restarting repeatedly (Critical).
    ContainerCrashLoop,
    /// A TLS certificate is nearing expiry or expired (Warning/Critical).
    CertExpiring,
    /// The kernel OOM killer terminated a process (Critical).
    OomKill,
    /// Kernel panic evidence in the journal (Critical).
    KernelPanic,
    /// A mounted filesystem went read-only (Critical).
    FsReadOnly,
    /// The system clock was adjusted (Warning).
    ClockChange,
    /// Request volume from access logs exceeded the threshold within the
    /// window (Warning).
    RequestRateSpike,
}

impl View for EventKind {
    type V = EventKind;

    open spec fn view(&self) -> EventKind {
        *self
    }
}

impl table::Key for (EventKind, String) {
    fn same_key(&self, other: &Self) -> (r: bool) {
        self.0 == other.0 && text::same(self.1.as_str(), other.1.as_str())
    }
}

/// The name of a kind in messages and in the store.
pub open spec fn kind_name(k: EventKind) -> Seq<char> {
    match k {
        EventKind::Reboot => "Reboot"@,
        EventKind::ServiceFailed => "ServiceFailed"@,
        EventKind::ServiceCrashLoop => "ServiceCrashLoop"@,
        EventKind::DiskHigh => "DiskHigh"@,
        EventKind::InodeHigh => "InodeHigh"@,
        EventKind::CpuSpike => "CpuSpike"@,
        EventKind::MemHigh => "MemHigh"@,
        EventKind::LoadHigh => "LoadHigh"@,
        EventKind::SwapHigh => "SwapHigh"@,
        EventKind::NetDevErrors => "NetDevErrors"@,
        EventKind::HostUnreachable => "HostUnreachable"@,
        EventKind::SshLogin => "SshLogin"@,
        EventKind::SshFailed => "SshFailed"@,
        EventKind::SshBruteForce => "SshBruteForce"@,
        EventKind::RootLogin => "RootLogin"@,
        EventKind::SudoUsed => "SudoUsed"@,
        EventKind::FileChanged => "FileChanged"@,
        EventKind::NewListeningPort => "NewListeningPort"@,
        EventKind::NewOutboundConnection => "NewOutboundConnection"@,
        EventKind::ConnectionRateSpike => "ConnectionRateSpike"@,
        EventKind::PortScanSpike => "PortScanSpike"@,
        EventKind::ServiceRestarted => "ServiceRestarted"@,
        EventKind::AgentHeartbeatMissing => "AgentHeartbeatMissing"@,
        EventKind::AgentQueueGrowing => "AgentQueueGrowing"@,
        EventKind::ErrorRateSpike => "ErrorRateSpike"@,
        EventKind::ContainerStopped => "ContainerStopped"@,
        EventKind::ContainerCrashLoop => "ContainerCrashLoop"@,
        EventKind::CertExpiring => "CertExpiring"@,
        EventKind::OomKill => "OomKill"@,
        EventKind::KernelPanic => "KernelPanic"@,
        EventKind::FsReadOnly => "FsReadOnly"@,
        EventKind::ClockChange => "ClockChange"@,
        EventKind::RequestRateSpike => "RequestRateSpike"@,
    }
}

/// The name of a severity in messages and in the store.
pub open spec fn severity_name(s: Severity) -> Seq<char> {
    match s {
        Severity::Info => "Info"@,
        Severity::Warning => "Warning"@,
        Severity::Critical => "Critical"@,
    }
}

/// Kinds have different names.
pub proof fn law_kind_names_differ(a: EventKind, b: EventKind)
    requires
        kind_name(a) == kind_name(b),
    ensures
        a == b,
{
    reveal_strlit("Reboot");
    assert("Reboot"@.len() == 6);
    reveal_strlit("ServiceFailed");
    assert("ServiceFailed"@.len() == 13);
    reveal_strlit("ServiceCrashLoop");
    assert("ServiceCrashLoop"@.len() == 16);
    reveal_strlit("DiskHigh");
    assert("DiskHigh"@.len() == 8);
    reveal_strlit("InodeHigh");
    assert("InodeHigh"@.len() == 9);
    reveal_strlit("CpuSpike");
    assert("CpuSpike"@.len() == 8);
    reveal_strlit("MemHigh");
    assert("MemHigh"@.len() == 7);
    reveal_strlit("LoadHigh");
    assert("LoadHigh"@.len() == 8);
    reveal_strlit("SwapHigh");
    assert("SwapHigh"@.len() == 8);
    reveal_strlit("NetDevErrors");
    assert("NetDevErrors"@.len() == 12);
    reveal_strlit("HostUnreachable");
    assert("HostUnreachable"@.len() == 15);
    reveal_strlit("SshLogin");
    assert("SshLogin"@.len() == 8);
    reveal_strlit("SshFailed");
    assert("SshFailed"@.len() == 9);
    reveal_strlit("SshBruteForce");
    assert("SshBruteForce"@.len() == 13);
    reveal_strlit("RootLogin");
    assert("RootLogin"@.len() == 9);
    reveal_strlit("SudoUsed");
    assert("SudoUsed"@.len() == 8);
    reveal_strlit("FileChanged");
    assert("FileChanged"@.len() == 11);
    reveal_strlit("NewListeningPort");
    assert("NewListeningPort"@.len() == 16);
    reveal_strlit("NewOutboundConnection");
    assert("NewOutboundConnection"@.len() == 21);
    reveal_strlit("ConnectionRateSpike");
    assert("ConnectionRateSpike"@.len() == 19);
    reveal_strlit("PortScanSpike");
    assert("PortScanSpike"@.len() == 13);
    reveal_strlit("ServiceRestarted");
    assert("ServiceRestarted"@.len() == 16);
    reveal_strlit("AgentHeartbeatMissing");
    assert("AgentHeartbeatMissing"@.len() == 21);
    reveal_strlit("AgentQueueGrowing");
    assert("AgentQueueGrowing"@.len() == 17);
    reveal_strlit("ErrorRateSpike");
    assert("ErrorRateSpike"@.len() == 14);
    reveal_strlit("ContainerStopped");
    assert("ContainerStopped"@.len() == 16);
    reveal_strlit("ContainerCrashLoop");
    assert("ContainerCrashLoop"@.len() == 18);
    reveal_strlit("CertExpiring");
    assert("CertExpiring"@.len() == 12);
    reveal_strlit("OomKill");
    assert("OomKill"@.len() == 7);
    reveal_strlit("KernelPanic");
    assert("KernelPanic"@.len() == 11);
    reveal_strlit("FsReadOnly");
    assert("FsReadOnly"@.len() == 10);
    reveal_strlit("ClockChange");
    assert("ClockChange"@.len() == 11);
    reveal_strlit("RequestRateSpike");
    assert("RequestRateSpike"@.len() == 16);
    assert("MemHigh"@[0] == 'M');
    assert("OomKill"@[0] == 'O');
    assert("DiskHigh"@[1] == 'i');
    assert("CpuSpike"@[1] == 'p');
    assert("LoadHigh"@[1] == 'o');
    assert("SwapHigh"@[1] == 'w');
    assert("SshLogin"@[1] == 's');
    assert("SudoUsed"@[1] == 'u');
    assert("InodeHigh"@[0] == 'I');
    assert("SshFailed"@[0] == 'S');
    assert("RootLogin"@[0] == 'R');
    assert("FileChanged"@[0] == 'F');
    assert("KernelPanic"@[0] == 'K');
    assert("ClockChange"@[0] == 'C');
    assert("NetDevErrors"@[0] == 'N');
    assert("CertExpiring"@[0] == 'C');
    assert("ServiceFailed"@[1] == 'e');
    assert("SshBruteForce"@[1] == 's');
    assert("PortScanSpike"@[1] == 'o');
    assert("ServiceCrashLoop"@[9] == 'a');
    assert("NewListeningPort"@[9] == 'i');
    assert("ServiceRestarted"@[9] == 's');
    assert("ContainerStopped"@[9] == 'S');
    assert("RequestRateSpike"@[9] == 't');
    assert("NewOutboundConnection"@[0] == 'N');
    assert("AgentHeartbeatMissing"@[0] == 'A');
}

/// Severities have different names.
pub proof fn law_severity_names_differ(a: Severity, b: Severity)
    requires
        severity_name(a) == severity_name(b),
    ensures
        a == b,
{
    reveal_strlit("Info");
    assert("Info"@.len() == 4);
    reveal_strlit("Warning");
    assert("Warning"@.len() == 7);
    reveal_strlit("Critical");
    assert("Critical"@.len() == 8);
}

/// The name of a kind.
pub fn kind_text(k: EventKind) -> (r: &'static str)
    ensures
        r@ == kind_name(k),
{
    match k {
        EventKind::Reboot => "Reboot",
        EventKind::ServiceFailed => "ServiceFailed",
        EventKind::ServiceCrashLoop => "ServiceCrashLoop",
        EventKind::DiskHigh => "DiskHigh",
        EventKind::InodeHigh => "InodeHigh",
        EventKind::CpuSpike => "CpuSpike",
        EventKind::MemHigh => "MemHigh",
        EventKind::LoadHigh => "LoadHigh",
        EventKind::SwapHigh => "SwapHigh",
        EventKind::NetDevErrors => "NetDevErrors",
        EventKind::HostUnreachable => "HostUnreachable",
        EventKind::SshLogin => "SshLogin",
        EventKind::SshFailed => "SshFailed",
        EventKind::SshBruteForce => "SshBruteForce",
        EventKind::RootLogin => "RootLogin",
        EventKind::SudoUsed => "SudoUsed",
        EventKind::FileChanged => "FileChanged",
        EventKind::NewListeningPort => "NewListeningPort",
        EventKind::NewOutboundConnection => "NewOutboundConnection",
        EventKind::ConnectionRateSpike => "ConnectionRateSpike",
        EventKind::PortScanSpike => "PortScanSpike",
        EventKind::ServiceRestarted => "ServiceRestarted",
        EventKind::AgentHeartbeatMissing => "AgentHeartbeatMissing",
        EventKind::AgentQueueGrowing => "AgentQueueGrowing",
        EventKind::ErrorRateSpike => "ErrorRateSpike",
        EventKind::ContainerStopped => "ContainerStopped",
        EventKind::ContainerCrashLoop => "ContainerCrashLoop",
        EventKind::CertExpiring => "CertExpiring",
        EventKind::OomKill => "OomKill",
        EventKind::KernelPanic => "KernelPanic",
        EventKind::FsReadOnly => "FsReadOnly",
        EventKind::ClockChange => "ClockChange",
        EventKind::RequestRateSpike => "RequestRateSpike",
    }
}

/// The name of a severity.
pub fn severity_text(s: Severity) -> (r: &'static str)
    ensures
        r@ == severity_name(s),
{
    match s {
        Severity::Info => "Info",
        Severity::Warning => "Warning",
        Severity::Critical => "Critical",
    }
}

/// The kind with a name, if there is one.
pub open spec fn named_kind(name: Seq<char>) -> Option<EventKind> {
    if exists|k: EventKind| #[trigger] kind_name(k) == name {
        Some(choose|k: EventKind| #[trigger] kind_name(k) == name)
    } else {
        None
    }
}

/// The severity with a name, if there is one.
pub open spec fn named_severity(name: Seq<char>) -> Option<Severity> {
    if exists|s: Severity| #[trigger] severity_name(s) == name {
        Some(choose|s: Severity| #[trigger] severity_name(s) == name)
    } else {
        None
    }
}

/// A kind is the one with its name, and a severity likewise.
pub proof fn law_names_name(k: EventKind, s: Severity)
    ensures
        named_kind(kind_name(k)) == Some(k),
        named_severity(severity_name(s)) == Some(s),
{
    let k2 = choose|k2: EventKind| #[trigger] kind_name(k2) == kind_name(k);
    law_kind_names_differ(k2, k);
    let s2 = choose|s2: Severity| #[trigger] severity_name(s2) == severity_name(s);
    law_severity_names_differ(s2, s);
}

/// The kind with a name.
pub fn kind_named(name: &str) -> (r: Option<EventKind>)
    ensures
        r == named_kind(name@),
{
    let r = if text::same(name, "Reboot") {
        Some(EventKind::Reboot)
    } else if text::same(name, "ServiceFailed") {
        Some(EventKind::ServiceFailed)
    } else if text::same(name, "ServiceCrashLoop") {
        Some(EventKind::ServiceCrashLoop)
    } else if text::same(name, "DiskHigh") {
        Some(EventKind::DiskHigh)
    } else if text::same(name, "InodeHigh") {
        Some(EventKind::InodeHigh)
    } else if text::same(name, "CpuSpike") {
        Some(EventKind::CpuSpike)
    } else if text::same(name, "MemHigh") {
        Some(EventKind::MemHigh)
    } else if text::same(name, "LoadHigh") {
        Some(EventKind::LoadHigh)
    } else if text::same(name, "SwapHigh") {
        Some(EventKind::SwapHigh)
    } else if text::same(name, "NetDevErrors") {
        Some(EventKind::NetDevErrors)
    } else if text::same(name, "HostUnreachable") {
        Some(EventKind::HostUnreachable)
    } else if text::same(name, "SshLogin") {
        Some(EventKind::SshLogin)
    } else if text::same(name, "SshFailed") {
        Some(EventKind::SshFailed)
    } else if text::same(name, "SshBruteForce") {
        Some(EventKind::SshBruteForce)
    } else if text::same(name, "RootLogin") {
        Some(EventKind::RootLogin)
    } else if text::same(name, "SudoUsed") {
        Some(EventKind::SudoUsed)
    } else if text::same(name, "FileChanged") {
        Some(EventKind::FileChanged)
    } else if text::same(name, "NewListeningPort") {
        Some(EventKind::NewListeningPort)
    } else if text::same(name, "NewOutboundConnection") {
        Some(EventKind::NewOutboundConnection)
    } else if text::same(name, "ConnectionRateSpike") {
        Some(EventKind::ConnectionRateSpike)
    } else if text::same(name, "PortScanSpike") {
        Some(EventKind::PortScanSpike)
    } else if text::same(name, "ServiceRestarted") {
        Some(EventKind::ServiceRestarted)
    } else if text::same(name, "AgentHeartbeatMissing") {
        Some(EventKind::AgentHeartbeatMissing)
    } else if text::same(name, "AgentQueueGrowing") {
        Some(EventKind::AgentQueueGrowing)
    } else if text::same(name, "ErrorRateSpike") {
        Some(EventKind::ErrorRateSpike)
    } else if text::same(name, "ContainerStopped") {
        Some(EventKind::ContainerStopped)
    } else if text::same(name, "ContainerCrashLoop") {
        Some(EventKind::ContainerCrashLoop)
    } else if text::same(name, "CertExpiring") {
        Some(EventKind::CertExpiring)
    } else if text::same(name, "OomKill") {
        Some(EventKind::OomKill)
    } else if text::same(name, "KernelPanic") {
        Some(EventKind::KernelPanic)
    } else if text::same(name, "FsReadOnly") {
        Some(EventKind::FsReadOnly)
    } else if text::same(name, "ClockChange") {
        Some(EventKind::ClockChange)
    } else if text::same(name, "RequestRateSpike") {
        Some(EventKind::RequestRateSpike)
    } else {
        None
    };
    proof {
        if let Some(x) = r {
            law_names_name(x, Severity::Info);
        }
    }
    r
}

/// The severity with a name.
pub fn severity_named(name: &str) -> (r: Option<Severity>)
    ensures
        r == named_severity(name@),
{
    let r = if text::same(name, "Info") {
        Some(Severity::Info)
    } else if text::same(name, "Warning") {
        Some(Severity::Warning)
    } else if text::same(name, "Critical") {
        Some(Severity::Critical)
    } else {
        None
    };
    proof {
        if let Some(x) = r {
            law_names_name(EventKind::Reboot, x);
        }
    }
    r
}

/// One observation behind an event.
#[derive(Debug, Clone)]
pub struct Evidence {
    /// unix millis
    pub ts: i64,
    pub source: String,
    pub detail: String,
}

/// What an `Evidence` says.
#[verifier::ext_equal]
pub struct EvidenceView {
    pub ts: i64,
    pub source: Seq<char>,
    pub detail: Seq<char>,
}

impl View for Evidence {
    type V = EvidenceView;

    open spec fn view(&self) -> EvidenceView {
        EvidenceView { ts: self.ts, source: self.source@, detail: self.detail@ }
    }
}

/// One event of a host.
#[derive(Debug, Clone)]
pub struct AgentEvent {
    pub id: String,
    /// unix millis
    pub ts: i64,
    pub host_id: String,
    /// Dedup key within a kind, e.g. "svc:nginx" or "mount:/".
    pub key: String,
    pub kind: EventKind,
    pub severity: Severity,
    pub summary: String,
    pub evidence: Vec<Evidence>,
}

/// What an `AgentEvent` says.
#[verifier::ext_equal]
pub struct EventView {
    pub id: Seq<char>,
    pub ts: i64,
    pub host_id: Seq<char>,
    pub key: Seq<char>,
    pub kind: EventKind,
    pub severity: Severity,
    pub summary: Seq<char>,
    pub evidence: Seq<EvidenceView>,
}

impl View for AgentEvent {
    type V = EventView;

    open spec fn view(&self) -> EventView {
        EventView {
            id: self.id@,
            ts: self.ts,
            host_id: self.host_id@,
            key: self.key@,
            kind: self.kind,
            severity: self.severity,
            summary: self.summary@,
            evidence: evidence_views(self.evidence@),
        }
    }
}

/// What each item of a list of evidence says.
pub open spec fn evidence_views(v: Seq<Evidence>) -> Seq<EvidenceView> {
    v.map_values(|e: Evidence| e@)
}

/// What each event of a list says.
pub open spec fn events(v: Seq<AgentEvent>) -> Seq<EventView> {
    v.map_values(|e: AgentEvent| e@)
}

/// Adding an event to a list adds what it says.
pub broadcast proof fn lemma_events_push(v: Seq<AgentEvent>, e: AgentEvent)
    ensures
        #[trigger] events(v.push(e)) == events(v).push(e@),
{
    assert(events(v.push(e)) =~= events(v).push(e@));
}

/// An event with one item of evidence, of the same time.
pub open spec fn event_of(
    id: Seq<char>,
    ts: i64,
    host_id: Seq<char>,
    key: Seq<char>,
    kind: EventKind,
    severity: Severity,
    summary: Seq<char>,
    source: Seq<char>,
    detail: Seq<char>,
) -> EventView {
    EventView {
        id,
        ts,
        host_id,
        key,
        kind,
        severity,
        summary,
        evidence: seq![EvidenceView { ts, source, detail }],
    }
}

/// An event, whatever its id.
pub open spec fn without_id(e: EventView) -> EventView {
    EventView { id: seq![], ..e }
}

/// Events, whatever their ids.
pub open spec fn without_ids(s: Seq<EventView>) -> Seq<EventView> {
    s.map_values(|e: EventView| without_id(e))
}

/// Make an event with one item of evidence, of the same time.
pub fn make_event(
    id: String,
    ts: i64,
    host_id: &str,
    key: String,
    kind: EventKind,
    severity: Severity,
    summary: String,
    source: &str,
    detail: String,
) -> (e: AgentEvent)
    ensures
        e@ == event_of(
            id@,
            ts,
            host_id@,
            key@,
            kind,
            severity,
            summary@,
            source@,
            detail@,
        ),
{
    let mut evidence: Vec<Evidence> = Vec::new();
    evidence.push(Evidence { ts, source: text::owned(source), detail });
    let e = AgentEvent {
        id,
        ts,
        host_id: text::owned(host_id),
        key,
        kind,
        severity,
        summary,
        evidence,
    };
    assert(e@.evidence =~= seq![EvidenceView { ts, source: source@, detail: detail@ }]);
    e
}

/// A copy of a list of evidence.
pub fn copy_evidence(v: &Vec<Evidence>) -> (r: Vec<Evidence>)
    ensures
        evidence_views(r@) == evidence_views(v@),
{
    let mut r: Vec<Evidence> = Vec::new();
    let mut i: usize = 0;
    while i < v.len()
        invariant
            i <= v@.len(),
            r@.len() == i,
            forall|j: int| 0 <= j < i ==> (#[trigger] r@[j])@ == v@[j]@,
        decreases v@.len() - i,
    {
        let e = Evidence {
            ts: v[i].ts,
            source: v[i].source.clone(),
            detail: v[i].detail.clone(),
        };
        r.push(e);
        i = i + 1;
    }
    assert(evidence_views(r@) =~= evidence_views(v@));
    r
}

impl AgentEvent {
    /// A copy of an event.
    pub fn copy(&self) -> (r: AgentEvent)
        ensures
            r@ == self@,
    {
        AgentEvent {
            id: self.id.clone(),
            ts: self.ts,
            host_id: self.host_id.clone(),
            key: self.key.clone(),
            kind: self.kind,
            severity: self.severity,
            summary: self.summary.clone(),
            evidence: copy_evidence(&self.evidence),
        }
    }
}

/// A sign of life of an agent.
#[derive(Debug, Clone)]
pub struct Heartbeat {
    pub host_id: String,
    /// unix millis
    pub ts: i64,
    pub version: String,
    pub queue_len: u64,
}

/// The agent's configuration. The thresholds that are fractions stay with the
/// program that reads the gauges.
#[derive(Debug, Clone)]
pub struct Config {
    pub host_id: String,
    pub server_url: String,
    pub token: String,
    pub poll_interval_secs: u64,
    pub heartbeat_secs: u64,
    pub dedup_secs: i64,
    pub spool_dir: String,
    /// Files (absolute paths) watched for modification.
    pub watch_paths: Vec<String>,
    /// Regex patterns counted as application errors in journal lines.
    pub error_patterns: Vec<String>,
    /// Seconds window for error counting.
    pub error_window_secs: i64,
    /// Errors within the window that trigger an ErrorRateSpike.
    pub error_threshold: u32,
    /// Watch Docker container states (docker binary required).
    pub docker_enabled: bool,
    /// Certificate paths (files or globs) to scan for expiry. Common
    /// locations when empty.
    pub cert_paths: Vec<String>,
    /// Days before expiry that raise a Warning.
    pub cert_warn_days: i64,
    /// Days before expiry that raise a Critical.
    pub cert_crit_days: i64,
    /// Seconds between certificate scans (they spawn openssl per cert).
    pub cert_scan_interval_secs: i64,
    /// Failed logins for one (user, ip) within the window that constitute a
    /// brute-force episode.
    pub ssh_brute_threshold: u32,
    /// Seconds window for brute-force counting.
    pub ssh_brute_window_secs: u64,
    /// Access log files (nginx/apache combined format) to tail.
    pub access_log_paths: Vec<String>,
    /// Requests within the window that trigger a RequestRateSpike.
    pub request_rate_threshold: u32,
    /// Seconds window for request-rate counting.
    pub request_rate_window_secs: i64,
    /// Distinct new remote endpoints within the window that trigger a
    /// PortScanSpike.
    pub scan_threshold: u32,
    /// Seconds window for counting new remote endpoints.
    pub scan_window_secs: i64,
}

impl Default for Config {
    fn default() -> (c: Self)
        ensures
            c.host_id@ == "auto"@,
            c.server_url@.len() == 0,
            c.token@.len() == 0,
            c.poll_interval_secs == 15,
            c.heartbeat_secs == 30,
            c.dedup_secs == 300,
            c.spool_dir@ == "/var/lib/watchtower/spool"@,
            c.watch_paths@.len() == 0,
            c.error_patterns@.len() == 0,
            c.error_window_secs == 300,
            c.error_threshold == 10,
            c.docker_enabled,
            c.cert_paths@.len() == 0,
            c.cert_warn_days == 14,
            c.cert_crit_days == 3,
            c.cert_scan_interval_secs == 3600,
            c.ssh_brute_threshold == 5,
            c.ssh_brute_window_secs == 300,
            c.access_log_paths@.len() == 0,
            c.request_rate_threshold == 200,
            c.request_rate_window_secs == 60,
            c.scan_threshold == 25,
            c.scan_window_secs == 10,
    {
        Config {
            host_id: text::owned("auto"),
            server_url: String::new(),
            token: String::new(),
            poll_interval_secs: 15,
            heartbeat_secs: 30,
            dedup_secs: 300,
            spool_dir: text::owned("/var/lib/watchtower/spool"),
            watch_paths: Vec::new(),
            error_patterns: Vec::new(),
            error_window_secs: 300,
            error_threshold: 10,
            docker_enabled: true,
            cert_paths: Vec::new(),
            cert_warn_days: 14,
            cert_crit_days: 3,
            cert_scan_interval_secs: 3600,
            ssh_brute_threshold: 5,
            ssh_brute_window_secs: 300,
            access_log_paths: Vec::new(),
            request_rate_threshold: 200,
            request_rate_window_secs: 60,
            scan_threshold: 25,
            scan_window_secs: 10,
        }
    }
}

/// Whether a host id names a host: it is not blank and not "auto", whatever
/// the case of its letters.
pub open spec fn names_a_host(id: Seq<char>) -> bool {
    let t = text::trim(id);
    t.len() > 0 && !text::same_ignoring_case(t, "auto"@)
}

impl Config {
    /// Whether the configured host id can be shipped as it is.
    pub fn host_id_valid(&self) -> (r: bool)
        ensures
            r == names_a_host(self.host_id@),
    {
        let t = text::trimmed(self.host_id.as_str());
        !t.as_str().is_empty() && !text::eq_ignore_case(t.as_str(), "auto")
    }
}

/// An id names a host unless it is blank or says "auto", in whatever case.
pub proof fn law_auto_names_no_host(id: Seq<char>)
    ensures
        names_a_host(id) <==> text::trim(id).len() > 0 && text::trim(id).map_values(
            |c: char|
                if 'A' <= c <= 'Z' {
                    (c as int + 32) as char
                } else {
                    c
                },
        ) != "auto"@,
{
    reveal_strlit("auto");
    let t = text::trim(id);
    assert(t.map_values(
        |c: char|
            if 'A' <= c <= 'Z' {
                (c as int + 32) as char
            } else {
                c
            },
    ) =~= t.map_values(|c: char| text::lower(c)));
    assert("auto"@.map_values(|c: char| text::lower(c)) =~= "auto"@);
}

} // verus!
