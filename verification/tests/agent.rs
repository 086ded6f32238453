use std::cell::RefCell;

use watchtower::agent::audit::audit;
use watchtower::agent::cmd::{
    finish, timed_out, wait_step, CommandExit, CommandRunner, JournalCtl, Runners, SystemCtl, Wait,
};
use watchtower::agent::discover::{
    detect_cloud, detect_cron, detect_databases, detect_distro, detect_firewall, detect_logs,
    detect_ports, detect_proxies, detect_ssh, detect_systemd, run_all, EntryKind, RootEntry,
    RootFs,
};
use watchtower::agent::engine::{
    boot_epoch, dedup, keep_usable, run_once, AgentState, Deduper, Readings, RebootDetector,
};
use watchtower::agent::journald::{parse_journal, read_since, service_start, JournalLine};
use watchtower::agent::procfs::{decode_ipv4, decode_ipv6, ProcFile, ProcFs};
use watchtower::agent::sensors::disk::MountStat;
use watchtower::agent::sensors::docker::ContainerState;
use watchtower::agent::sensors::fim_types::FimEvent;
use watchtower::agent::sensors::netflow::NetState;
use watchtower::agent::sensors::resource::{cpu_usage_now, GaugeReading, LoadReading};
use watchtower::common::{AgentEvent, Config, EventKind, Severity};

fn file(path: &str, text: &str) -> ProcFile {
    ProcFile {
        path: path.to_string(),
        text: Ok(text.to_string()),
    }
}

const MEMINFO: &str = "MemTotal:        1000000 kB
MemFree:          100000 kB
MemAvailable:     250000 kB
SwapTotal:        200000 kB
SwapFree:         100000 kB
";

const NET_DEV: &str = "Inter-|   Receive                                                |  Transmit
 face |bytes    packets errs drop fifo frame compressed multicast|bytes    packets errs drop fifo colls carrier compressed
    lo: 1000 10 0 0 0 0 0 0 1000 10 0 0 0 0 0 0
  eth0: 2000 20 0 0 0 0 0 0 2000 20 3 0 0 0 0 0
  eth1: 3000 30 7 0 0 0 0 0 3000 30 0 0 0 0 0 0
";

const NET_TCP: &str = "  sl  local_address rem_address   st tx_queue rx_queue tr tm->when retrnsmt   uid  timeout inode
   0: 0100007F:1F90 00000000:0000 0A 00000000:00000000 00:00000000 00000000     0        0 1 1
   1: 0100007F:C350 0100007F:1F90 01 00000000:00000000 00:00000000 00000000     0        0 2 1
   2: 0A00000A:C351 2FD8B85D:01BB 01 00000000:00000000 00:00000000 00000000     0        0 3 1
";

const NET_TCP6: &str = "  sl  local_address                         remote_address                        st
   0: 00000000000000000000000000000000:1F90 00000000000000000000000000000000:0000 0A 0
   1: 00000000000000000000000000000000:2328 00000000000000000000000000000000:0000 01 0
";

const NET_UDP: &str = "  sl  local_address rem_address   st tx_queue rx_queue
   0: 00000000:14E9 00000000:0000 07 00000000:00000000
   1: 0100007F:0035 00000000:0000 07 00000000:00000000
";

const NET_UDP6: &str = "  sl  local_address                         remote_address                        st
   0: 00000000000000000000000000000000:14E9 00000000000000000000000000000000:0000 07 0
";

const MOUNTS: &str = "/dev/sda1 / ext4 rw,relatime 0 0
sysfs /sys sysfs rw 0 0
proc /proc proc rw 0 0
tmpfs /run tmpfs rw 0 0
";

fn fixture_procfs() -> ProcFs {
    ProcFs::new(vec![
        file("meminfo", MEMINFO),
        file("loadavg", "2.50 1.20 0.80 1/234 5678\n"),
        file("uptime", "3600.00 7000.00\n"),
        file("stat", "cpu  100 5 50 800 20 0 5 0 0 0\ncpu0 100 5 50 800 20 0 5 0 0 0\n"),
        file("net/dev", NET_DEV),
        file("net/tcp", NET_TCP),
        file("net/tcp6", NET_TCP6),
        file("net/udp", NET_UDP),
        file("net/udp6", NET_UDP6),
        file("mounts", MOUNTS),
        file(
            "sys/kernel/random/boot_id",
            "1b4e28ba-2fa1-11d2-883f-0016d3cca427\n",
        ),
        file("sys/net/ipv4/ip_local_port_range", "32768\t60999\n"),
    ])
}

#[test]
fn parses_meminfo_percentages() {
    let m = fixture_procfs().meminfo().unwrap();
    let used = |total: u64, left: u64| 100.0 * (total - left) as f64 / total as f64;
    assert_eq!(used(m.mem_total, m.mem_available).round(), 75.0);
    assert_eq!(used(m.swap_total, m.swap_free).round(), 50.0);
}

#[test]
fn parses_loadavg_first_field() {
    let load = fixture_procfs().load_one_min().unwrap();
    assert_eq!(load.parse::<f64>().unwrap(), 2.5);
}

#[test]
fn parses_uptime_seconds() {
    let up = fixture_procfs().uptime_secs().unwrap();
    assert_eq!(up.parse::<f64>().unwrap(), 3600.0);
}

#[test]
fn parses_netdev_errors() {
    let errs = fixture_procfs().netdev_errors().unwrap();
    assert_eq!(errs.get(&"eth0".to_string()).unwrap().tx, 3);
    assert_eq!(errs.get(&"eth1".to_string()).unwrap().rx, 7);
    assert_eq!(errs.get(&"lo".to_string()).unwrap().tx, 0);
}

#[test]
fn parses_tcp_listen_and_established() {
    let entries = fixture_procfs().tcp_entries().unwrap();
    assert!(entries
        .iter()
        .any(|e| e.local_ip == "127.0.0.1" && e.local_port == 8080 && e.state == "LISTEN"));
    assert!(entries
        .iter()
        .any(|e| e.remote_ip == "127.0.0.1" && e.remote_port == 8080 && e.state == "ESTABLISHED"));
    assert!(entries
        .iter()
        .any(|e| e.remote_ip == "93.184.216.47" && e.remote_port == 443));
}

#[test]
fn parses_tcp6_listen() {
    let entries = fixture_procfs().tcp6_entries().unwrap();
    assert!(entries
        .iter()
        .any(|e| e.local_ip == "::" && e.local_port == 8080 && e.state == "LISTEN"));
    assert!(entries
        .iter()
        .any(|e| e.local_ip == "::" && e.local_port == 9000 && e.state == "ESTABLISHED"));
}

#[test]
fn parses_udp_listens() {
    let p = fixture_procfs();
    let udp = p.udp_entries().unwrap();
    assert!(udp
        .iter()
        .any(|(ip, port)| ip == "0.0.0.0" && *port == 5353));
    assert!(udp
        .iter()
        .any(|(ip, port)| ip == "127.0.0.1" && *port == 53));
    let udp6 = p.udp6_entries().unwrap();
    assert!(udp6.iter().any(|(ip, port)| ip == "::" && *port == 5353));
}

#[test]
fn parses_mounts_filtering_pseudo_fs() {
    let mounts = fixture_procfs().mounts().unwrap();
    assert!(mounts.iter().any(|m| m.mount_point == "/"));
    assert!(mounts.iter().any(|m| m.mount_point == "/run"));
    assert!(!mounts.iter().any(|m| m.mount_point == "/sys"));
    assert!(!mounts.iter().any(|m| m.mount_point == "/proc"));
}

#[test]
fn reads_boot_id() {
    let id = fixture_procfs().boot_id().unwrap();
    assert!(id.contains('-'), "uuid-shaped: {}", id);
}

#[test]
fn ephemeral_min_reads_kernel_range() {
    assert_eq!(fixture_procfs().udp_ephemeral_min(), 32768);
}

#[test]
fn ephemeral_min_falls_back_when_range_unreadable() {
    let p = ProcFs::new(vec![]);
    assert_eq!(p.udp_ephemeral_min(), 32768);
}

#[test]
fn ephemeral_min_follows_the_file() {
    let p = ProcFs::new(vec![file(
        "sys/net/ipv4/ip_local_port_range",
        "40000 50000\n",
    )]);
    assert_eq!(p.udp_ephemeral_min(), 40000);
}

#[test]
fn decodes_ipv4_hex_little_endian() {
    assert_eq!(decode_ipv4("0100007F"), "127.0.0.1");
    assert_eq!(decode_ipv4("8F2D5A5D"), "93.90.45.143");
}

#[test]
fn decodes_ipv6_groups_little_endian() {
    assert_eq!(decode_ipv6("00000000000000000000000000000000"), "::");
    assert_eq!(
        decode_ipv6("0000000000000000FFFF00000100007F"),
        "::ffff:127.0.0.1"
    );
}

#[test]
fn decodes_ipv6_real_world_addresses() {
    // 2001:db8::1 (kernel LE-word format)
    assert_eq!(
        decode_ipv6("b80d0120000000000000000001000000"),
        "2001:db8::1"
    );
    // 2001:4860:4860::8888 (Google DNS)
    assert_eq!(
        decode_ipv6("60480120000060480000000088880000"),
        "2001:4860:4860::8888"
    );
    // fe80::1 (link-local); kernel word "000080FE" = LE u32 of bytes [FE 80 00 00]
    assert_eq!(decode_ipv6("000080fe000000000000000001000000"), "fe80::1");
}

#[test]
fn unreadable_proc_files_are_errors() {
    let p = ProcFs::new(vec![ProcFile {
        path: "meminfo".into(),
        text: Err("permission denied".into()),
    }]);
    assert_eq!(p.meminfo().err().unwrap(), "permission denied");
    assert!(p.tcp_entries().is_err());
    assert!(p.load_one_min().is_err());
    assert!(p.is_broken(false));
    assert!(!p.is_broken(true));
    assert!(!fixture_procfs().is_broken(false));
    let p = ProcFs::new(vec![file("loadavg", " \n"), file("uptime", "")]);
    assert_eq!(p.load_one_min().unwrap_err(), "empty loadavg");
    assert_eq!(p.uptime_secs().unwrap_err(), "empty uptime");
}

#[test]
fn cpu_ticks_from_fixture_parses() {
    let (total, idle) = fixture_procfs().cpu_ticks().unwrap();
    assert!(total > idle);
    assert!(idle > 0);
}

#[test]
fn cpu_usage_now_returns_stable_zeros_on_first_call() {
    let p = fixture_procfs();
    let pct = |busy: u64, total: u64| {
        if total == 0 {
            0.0
        } else {
            100.0 * busy as f64 / total as f64
        }
    };
    // the first call establishes the baseline: no divide-by-zero, pct is 0.0
    let first = cpu_usage_now(&p, 0, 0);
    let second = cpu_usage_now(&p, first.total, first.busy);
    assert_eq!(pct(first.busy_delta, first.total_delta), 0.0);
    assert!(pct(second.busy_delta, second.total_delta) >= 0.0);
}

#[test]
fn new_listening_port_and_outbound_emitted_then_quiet() {
    let p = fixture_procfs();
    let mut state = NetState::default();
    let evs = state.observe(&p, 1000, "h-1", 25, 10_000);
    let port_ev = evs
        .iter()
        .find(|e| e.key == "port:tcp:127.0.0.1:8080")
        .expect("port event");
    assert_eq!(port_ev.kind, EventKind::NewListeningPort);
    assert_eq!(port_ev.severity, Severity::Warning);
    let out_ev = evs
        .iter()
        .find(|e| e.key == "net:out:93.184.216.47")
        .expect("outbound event");
    assert_eq!(out_ev.kind, EventKind::NewOutboundConnection);
    assert_eq!(out_ev.severity, Severity::Warning);
    assert!(evs.iter().any(|e| e.key == "net:out:127.0.0.1"));
    // second observation with identical state: nothing new
    let evs = state.observe(&p, 2000, "h-1", 25, 10_000);
    assert!(evs.is_empty());
}

#[test]
fn what_the_poll_before_did_not_show_is_new_once() {
    let head = "sl local rem st\n";
    let tcp = |rows: &[&str]| format!("{}{}\n", head, rows.join("\n"));
    let poll = |state: &mut NetState, tcp_text: &str, udp_text: &str, ts: i64| {
        let p = ProcFs::new(vec![file("net/tcp", tcp_text), file("net/udp", udp_text)]);
        let mut keys: Vec<String> = state
            .observe(&p, ts, "h-1", 100, 10_000)
            .into_iter()
            .map(|e| e.key)
            .collect();
        keys.sort();
        keys
    };
    let a = "0: 0100007F:0050 00000000:0000 0A";
    let b = "1: 0100007F:0051 00000000:0000 0A";
    let far = "2: 0100007F:9000 08080808:01BB 01";
    let u = "0: 0100007F:0035 00000000:0000 07";
    let mut state = NetState::default();
    assert_eq!(
        poll(&mut state, &tcp(&[a, a, far, far]), &tcp(&[u, u]), 1_000),
        vec!["net:out:8.8.8.8", "port:tcp:127.0.0.1:80", "port:udp:127.0.0.1:53"]
    );
    assert_eq!(
        poll(&mut state, &tcp(&[a, b]), &tcp(&[]), 2_000),
        vec!["port:tcp:127.0.0.1:81"]
    );
    assert_eq!(
        poll(&mut state, &tcp(&[b, far]), &tcp(&[u]), 3_000),
        vec!["net:out:8.8.8.8", "port:udp:127.0.0.1:53"]
    );
    assert_eq!(
        poll(&mut state, &tcp(&[a, b]), "", 4_000),
        vec!["port:tcp:127.0.0.1:80"]
    );
}

#[test]
fn udp_listens_emitted_as_new_listening_ports() {
    let p = fixture_procfs();
    let mut state = NetState::default();
    let evs = state.observe(&p, 1000, "h-1", 25, 10_000);
    let ev = evs
        .iter()
        .find(|e| e.key == "port:udp:0.0.0.0:5353")
        .expect("udp mDNS listen event");
    assert_eq!(ev.kind, EventKind::NewListeningPort);
    assert_eq!(ev.severity, Severity::Warning);
    assert!(evs.iter().any(|e| e.key == "port:udp:127.0.0.1:53"));
    assert!(evs.iter().any(|e| e.key == "port:udp::::5353"));
    // no repeats on the next observation
    let evs = state.observe(&p, 2000, "h-1", 25, 10_000);
    assert!(evs.iter().all(|e| e.kind != EventKind::NewListeningPort));
}

// ---------------------------------------------------------------- commands

struct FakeRunner {
    out: String,
}

impl CommandRunner for FakeRunner {
    fn program(&self) -> &'static str {
        "fake"
    }
    fn run(&self, _args: &[&str]) -> Result<String, String> {
        if self.out.is_empty() {
            Err("exit 1".into())
        } else {
            Ok(self.out.clone())
        }
    }
}

fn fake(out: &str) -> FakeRunner {
    FakeRunner { out: out.into() }
}

fn fakes(
    sys: &str,
    journal: &str,
    docker: &str,
    openssl: &str,
) -> Runners<FakeRunner, FakeRunner, FakeRunner, FakeRunner> {
    Runners {
        sys: fake(sys),
        journal: fake(journal),
        docker: fake(docker),
        openssl: fake(openssl),
    }
}

#[test]
fn audits_runners_and_spool() {
    let results = audit(&fakes("running", "{}", "", ""), true);
    let sys = results.iter().find(|r| r.name == "systemctl").unwrap();
    assert!(sys.ok);
    let journal = results.iter().find(|r| r.name == "journalctl").unwrap();
    assert!(journal.ok);
    let docker = results.iter().find(|r| r.name == "docker").unwrap();
    assert!(!docker.ok, "empty docker output → Err → not ok");
    let spool_check = results.iter().find(|r| r.name == "spool").unwrap();
    assert!(spool_check.ok, "temp spool is writable");
}

#[test]
fn audit_reports_failures() {
    let results = audit(&fakes("", "", "", ""), false);
    assert!(results.iter().all(|r| r.detail.contains("failed")));
    assert_eq!(results[0].detail, "failed: exit 1");
    assert_eq!(results[3].detail, "failed: spool dir unreadable");
}

#[test]
fn commands_end_in_their_output_or_a_reason() {
    let fine = CommandExit {
        success: true,
        status: "exit status: 0".into(),
        stdout: "out".into(),
        stderr: "noise".into(),
    };
    assert_eq!(finish("systemctl", Ok(fine)), Ok("out".to_string()));
    let bad = CommandExit {
        success: false,
        status: "exit status: 4".into(),
        stdout: "out".into(),
        stderr: " no such unit \n".into(),
    };
    assert_eq!(
        SystemCtl.finish(Ok(bad)),
        Err("systemctl exited exit status: 4: no such unit".to_string())
    );
    assert_eq!(
        JournalCtl.finish(Err("not found".into())),
        Err("not found".to_string())
    );
    assert_eq!(SystemCtl.program(), "systemctl");
    assert_eq!(JournalCtl.program(), "journalctl");
    assert_eq!(
        timed_out("docker", " stuck\n"),
        "docker timed out after 10s: stuck"
    );
    assert_eq!(wait_step(true, 20_000), Wait::Ended);
    assert_eq!(wait_step(false, 9_999), Wait::Again);
    assert_eq!(wait_step(false, 10_000), Wait::Kill);
}

// --------------------------------------------------------------- discovery

fn entry(path: &str, kind: EntryKind, text: Option<&str>) -> RootEntry {
    RootEntry {
        path: path.into(),
        kind,
        text: text.map(|t| t.to_string()),
    }
}

fn root() -> RootFs {
    RootFs {
        entries: vec![
            entry(
                "etc/os-release",
                EntryKind::File,
                Some("NAME=\"Debian GNU/Linux\"\nPRETTY_NAME=\"Debian GNU/Linux 12 (bookworm)\"\n"),
            ),
            entry("etc/nginx/nginx.conf", EntryKind::File, None),
            entry("etc/ssh/sshd_config", EntryKind::File, None),
            entry("etc/cron.d", EntryKind::Dir, None),
            entry("etc/crontab", EntryKind::File, None),
        ],
    }
}

fn empty_root() -> RootFs {
    RootFs {
        entries: vec![entry("etc", EntryKind::Dir, None)],
    }
}

#[test]
fn detects_distro() {
    assert!(detect_distro(&root())
        .unwrap_or_default()
        .contains("Debian"));
}

#[test]
fn detects_distro_from_etc() {
    assert_eq!(
        detect_distro(&root()).unwrap(),
        "Debian GNU/Linux 12 (bookworm)"
    );
}

#[test]
fn falls_back_to_top_level_os_release() {
    let root = RootFs {
        entries: vec![entry(
            "os-release",
            EntryKind::File,
            Some("PRETTY_NAME=\"Fallback OS\"\n"),
        )],
    };
    assert_eq!(detect_distro(&root).unwrap(), "Fallback OS");
}

#[test]
fn detects_proxy_and_ssh_and_cron() {
    assert!(detect_proxies(&root())
        .unwrap_or_default()
        .contains("nginx"));
    assert!(detect_ssh(&root())
        .unwrap_or_default()
        .contains("sshd_config"));
    assert!(detect_cron(&root()).unwrap_or_default().contains("cron"));
}

#[test]
fn detects_nothing_on_empty_root() {
    let empty = empty_root();
    assert!(detect_distro(&empty).is_none());
    assert!(detect_proxies(&empty).is_none());
    assert!(detect_ssh(&empty).is_none());
}

#[test]
fn systemd_running_via_runner() {
    assert!(detect_systemd(&root(), &fake("running")).is_some());
    assert!(
        detect_systemd(&root(), &fake("")).is_none(),
        "systemctl failure → not running"
    );
    assert_eq!(
        detect_systemd(&root(), &fake("degraded\n")).unwrap(),
        "systemd degraded"
    );
}

#[test]
fn ports_and_databases_from_procfs() {
    let p = fixture_procfs();
    assert!(detect_ports(&p).is_some());
    assert!(detect_databases(&p).is_none(), "fixture has no db ports");
    assert_eq!(detect_ports(&p).unwrap(), "1 listening ports (e.g. 8080)");
}

#[test]
fn ports_are_counted_once_and_databases_named() {
    let tcp = "  sl  local_address rem_address   st
   0: 00000000:1538 00000000:0000 0A 0
   1: 0100007F:1538 00000000:0000 0A 0
   2: 00000000:18EB 00000000:0000 0A 0
   3: 00000000:0CEA 00000000:0000 01 0
";
    let p = ProcFs::new(vec![file("net/tcp", tcp)]);
    assert_eq!(detect_ports(&p).unwrap(), "2 listening ports (e.g. 5432)");
    assert_eq!(detect_databases(&p).unwrap(), "postgres, redis");
    assert!(detect_ports(&ProcFs::new(vec![])).is_none());
}

#[test]
fn docker_check_uses_docker_runner() {
    let checks = run_all(&root(), &fakes("", "", "x", ""), &fixture_procfs());
    let docker = checks
        .iter()
        .find(|c| c.label == "Docker detected")
        .unwrap();
    assert!(
        docker.ok,
        "docker check must use the docker runner: {}",
        docker.detail
    );
    assert_eq!(docker.detail, "docker available");
    assert_eq!(checks.len(), 12);
    let cloud = checks
        .iter()
        .find(|c| c.label == "Cloud environment")
        .unwrap();
    assert!(!cloud.ok);
    assert_eq!(cloud.detail, "bare metal/unknown");
}

#[test]
fn clouds_firewalls_and_logs_are_named() {
    let dmi = |name: &str| RootFs {
        entries: vec![entry(
            "sys/class/dmi/id/product_name",
            EntryKind::File,
            Some(name),
        )],
    };
    assert_eq!(detect_cloud(&dmi("Amazon EC2\n")).unwrap(), "aws");
    assert_eq!(detect_cloud(&dmi("Google Compute Engine")).unwrap(), "gcp");
    assert_eq!(detect_cloud(&dmi("Microsoft Corporation")).unwrap(), "azure");
    assert_eq!(detect_cloud(&dmi("DigitalOcean")).unwrap(), "digitalocean");
    assert!(detect_cloud(&dmi("Laptop")).is_none());
    let r = RootFs {
        entries: vec![
            entry("etc/cloud", EntryKind::Dir, None),
            entry("usr/sbin/ufw", EntryKind::File, None),
            entry("usr/sbin/nft", EntryKind::File, None),
            entry("usr/sbin/iptables", EntryKind::Dir, None),
            entry("var/log/nginx", EntryKind::Dir, None),
            entry("var/log/syslog", EntryKind::Other, None),
        ],
    };
    assert_eq!(detect_cloud(&r).unwrap(), "cloud-init");
    assert_eq!(detect_firewall(&r).unwrap(), "ufw, nftables");
    assert_eq!(detect_logs(&r).unwrap(), "var/log/nginx, var/log/syslog");
    assert!(detect_cron(&r).is_none());
}

// ----------------------------------------------------------------- journal

const JOURNAL: &str = r#"{"__REALTIME_TIMESTAMP":"1758000000123000","SYSLOG_IDENTIFIER":"sshd","_PID":"100","MESSAGE":"Accepted publickey for deploy from 198.51.100.24 port 51234 ssh2: RSA"}
{"__REALTIME_TIMESTAMP":"1758000000200000","SYSLOG_IDENTIFIER":"sshd","MESSAGE":"Failed password for root from 203.0.113.7 port 40000 ssh2"}
{"__REALTIME_TIMESTAMP":"1758000000300000","SYSLOG_IDENTIFIER":"sshd","MESSAGE":"Failed password for root from 203.0.113.7 port 40001 ssh2"}
{"__REALTIME_TIMESTAMP":"1758000000400000","SYSLOG_IDENTIFIER":"sudo","MESSAGE":"deploy : TTY=pts/0 ; PWD=/home/deploy ; USER=root ; COMMAND=/bin/ls"}
{"__REALTIME_TIMESTAMP":"1758000000500000","SYSLOG_IDENTIFIER":"su","MESSAGE":"pam_unix(su:session): session opened for user root by (uid=1000)"}
{"__REALTIME_TIMESTAMP":"1758000000600000","SYSLOG_IDENTIFIER":"cron","MESSAGE":"(root) CMD (true)"}
{"__REALTIME_TIMESTAMP":"1758000000700000","SYSLOG_IDENTIFIER":"systemd","MESSAGE":"Started myapp.service."}
{"__REALTIME_TIMESTAMP":"1758000000800000","SYSLOG_IDENTIFIER":"kernel","MESSAGE":"normal line"}
"#;

#[test]
fn parses_journal_json_lines() {
    let lines = parse_journal(JOURNAL).unwrap();
    assert!(lines.len() >= 8, "got {}", lines.len());
    let first = &lines[0];
    assert_eq!(first.ts_ms, 1_758_000_000_123);
    assert_eq!(first.ident, "sshd");
    assert!(first.message.contains("Accepted publickey"));
}

#[test]
fn skips_non_json_and_empty_lines() {
    let lines =
        parse_journal("not json\n\n{\"MESSAGE\":\"ok\",\"__REALTIME_TIMESTAMP\":\"1000\"}\n")
            .unwrap();
    assert_eq!(lines.len(), 1);
}

#[test]
fn service_start_detects_systemd_started_lines() {
    let lines = parse_journal(JOURNAL).unwrap();
    let started: Vec<String> = lines.iter().filter_map(service_start).collect();
    assert!(
        started.contains(&"myapp.service".to_string()),
        "got {:?}",
        started
    );
}

#[test]
fn service_start_ignores_other_lines() {
    let l = JournalLine {
        ts_ms: 1,
        ident: "systemd".into(),
        pid: 0,
        message: "Stopped myapp.service.".into(),
    };
    assert!(service_start(&l).is_none());
    let l = JournalLine {
        ts_ms: 1,
        ident: "sshd".into(),
        pid: 0,
        message: "Started something".into(),
    };
    assert!(service_start(&l).is_none());
}

struct SinceRunner;

impl CommandRunner for SinceRunner {
    fn program(&self) -> &'static str {
        "journalctl"
    }
    fn run(&self, args: &[&str]) -> Result<String, String> {
        assert!(args.contains(&"--since"));
        assert!(args.contains(&"@1758000000"));
        Ok(r#"{"MESSAGE":"accepted","__REALTIME_TIMESTAMP":"1758000000123000","SYSLOG_IDENTIFIER":"sshd"}"#.to_string())
    }
}

#[test]
fn journalctl_reader_uses_since_arg() {
    let out = read_since(&SinceRunner, 1_758_000_000, 0).unwrap();
    assert_eq!(out.len(), 1);
    assert_eq!(out[0].message, "accepted");
}

// ------------------------------------------------------------------ engine

#[test]
fn deduper_suppresses_within_window() {
    let mut d = Deduper::new(300);
    assert!(d.should_emit(EventKind::LoadHigh, "load:1m", 1000));
    assert!(!d.should_emit(EventKind::LoadHigh, "load:1m", 1100));
    assert!(d.should_emit(EventKind::LoadHigh, "load:5m", 1100));
}

#[test]
fn deduper_allows_after_window_expires() {
    let mut d = Deduper::new(300);
    assert!(d.should_emit(EventKind::DiskHigh, "mount:/", 1000));
    assert!(d.should_emit(EventKind::DiskHigh, "mount:/", 1301));
}

#[test]
fn dedup_window_is_in_seconds() {
    let ev = |ts: i64| AgentEvent {
        id: format!("e-{}", ts),
        ts,
        host_id: "h-1".into(),
        key: "k".into(),
        kind: EventKind::MemHigh,
        severity: Severity::Warning,
        summary: String::new(),
        evidence: vec![],
    };
    let mut d = Deduper::new(300);
    let kept = dedup(&mut d, vec![ev(1_000_000), ev(1_299_000), ev(1_300_000)]);
    let ids: Vec<&str> = kept.iter().map(|e| e.id.as_str()).collect();
    assert_eq!(ids, vec!["e-1000000", "e-1300000"]);
}

#[test]
fn boot_epoch_matches_clock_minus_uptime() {
    assert_eq!(
        boot_epoch(1_000_000_000_000, 3_600_000),
        Some(999_996_400_000)
    );
    assert_eq!(boot_epoch(1_000_000_000_000, 0), Some(1_000_000_000_000));
}

#[test]
fn reboot_detector_fires_on_epoch_jump() {
    let mut d = RebootDetector::default();
    assert!(!d.observe(1_000_000_000, None, 0).0, "seed only");
    let (fired, _) = d.observe(999_996_400_000, None, 1000);
    assert!(fired);
    let (fired, _) = d.observe(999_996_400_010, None, 1010);
    assert!(!fired, "stable after jump");
}

#[test]
fn reboot_detector_ignores_subthreshold_steps() {
    // clock steps move now and boot together → no false reboot
    let mut d = RebootDetector::default();
    d.observe(1_000_000_000, None, 0);
    assert!(!d.observe(1_000_000_100, None, 1000).0); // +0.1s step — sub-threshold, no fire
}

#[test]
fn reboot_requires_both_epoch_jump_and_boot_id_change() {
    let mut d = RebootDetector::default();
    assert!(!d.observe(1_000_000_000, Some("id-1".to_string()), 0).0);
    assert!(
        !d.observe(999_996_400_000, Some("id-1".to_string()), 1000).0,
        "clock step must not fire"
    );
    assert!(
        d.observe(1_000_000_100, Some("id-2".to_string()), 2000).0,
        "real reboot: fresh epoch and new id"
    );
}

#[test]
fn reboot_falls_back_to_epoch_only_without_boot_id() {
    let mut d = RebootDetector::default();
    assert!(!d.observe(1_000_000_000, None, 0).0);
    assert!(
        d.observe(999_996_400_000, None, 1000).0,
        "no boot id → epoch heuristic only"
    );
}

#[test]
fn boot_id_change_alone_does_not_fire() {
    let mut d = RebootDetector::default();
    assert!(!d.observe(1_000_000_000, Some("id-1".into()), 0).0);
    assert!(
        !d.observe(1_000_000_100, Some("id-2".into()), 1000).0,
        "id changed but epoch stable"
    );
}

/// Serves its journal text on `--since` calls and its docker text on
/// docker-shaped calls.
struct FakeSys {
    journal_out: String,
    docker_out: String,
}

impl CommandRunner for FakeSys {
    fn program(&self) -> &'static str {
        "journalctl"
    }
    fn run(&self, args: &[&str]) -> Result<String, String> {
        if args.contains(&"--since") {
            return Ok(self.journal_out.clone());
        }
        if args.contains(&"ps") {
            return Ok(self.docker_out.clone());
        }
        Ok("".to_string())
    }
}

fn sys(journal_out: &str, docker_out: &str) -> FakeSys {
    FakeSys {
        journal_out: journal_out.to_string(),
        docker_out: docker_out.to_string(),
    }
}

fn runners_with(
    sys_out: &str,
    journal_out: &str,
    docker_out: &str,
) -> Runners<FakeSys, FakeSys, FakeSys, FakeSys> {
    Runners {
        sys: sys(sys_out, ""),
        journal: sys(journal_out, ""),
        docker: sys("", docker_out),
        openssl: sys("", ""),
    }
}

fn gauge(over: bool) -> GaugeReading {
    GaugeReading {
        over,
        whole: "50".into(),
        tenth: "50.0".into(),
    }
}

fn quiet_readings() -> Readings {
    Readings {
        mem: Some(gauge(false)),
        swap: Some(gauge(false)),
        load: None,
        cpu: gauge(false),
        uptime_ms: Some(3_600_000),
        mounts: vec![],
    }
}

fn poll(
    cfg: &Config,
    deduper: &mut Deduper,
    ts: i64,
    runners: &Runners<FakeSys, FakeSys, FakeSys, FakeSys>,
    state: &mut AgentState,
) -> Vec<AgentEvent> {
    run_once(
        cfg,
        deduper,
        "h-1",
        ts,
        &fixture_procfs(),
        runners,
        &quiet_readings(),
        &vec![],
        state,
    )
}

#[test]
fn patterns_without_an_outcome_are_dropped() {
    let ps = vec!["a".to_string(), "(".to_string(), "b".to_string()];
    assert_eq!(
        keep_usable(&ps, &vec![Some(false), None, Some(true)]),
        vec!["a", "b"]
    );
    let cfg = Config {
        error_patterns: ps,
        ..Default::default()
    };
    assert_eq!(AgentState::new(&cfg, vec![]).error_patterns, vec!["a", "b"]);
}

#[test]
fn a_line_counts_once_for_each_pattern_that_matches() {
    let cfg = Config {
        error_patterns: vec!["a".to_string(), "b".to_string()],
        ..Default::default()
    };
    let mut state = AgentState::new(&cfg, vec![]);
    let line = |ts_ms: i64| JournalLine {
        ts_ms,
        ident: "app".into(),
        pid: 1,
        message: "whatever".into(),
    };
    state.count_line(&line(10), &vec![Some(true), Some(false)]);
    state.count_line(&line(20), &vec![Some(true), None]);
    let k = |p: &str| ("app".to_string(), p.to_string());
    assert_eq!(state.error_counts.get(&k("a")), Some(&vec![10, 20]));
    assert_eq!(state.error_counts.get(&k("b")), None);
}

#[test]
fn run_once_wires_sensors_and_emits_events() {
    let cfg = Config::default();
    let mut deduper = Deduper::new(300);
    let mut state = AgentState::new(&cfg, vec![]);
    let readings = Readings {
        swap: Some(gauge(true)),
        ..quiet_readings()
    };
    let evs = run_once(
        &cfg,
        &mut deduper,
        "h-1",
        1000,
        &fixture_procfs(),
        &runners_with("", "", ""),
        &readings,
        &vec![],
        &mut state,
    );
    assert!(!evs.is_empty());
    assert!(evs.iter().any(|e| e.kind == EventKind::SwapHigh));
}

#[test]
fn run_once_integrates_ssh_and_netflow_sensors() {
    let cfg = Config {
        ssh_brute_threshold: 2,
        ssh_brute_window_secs: 300,
        ..Default::default()
    };
    let mut deduper = Deduper::new(300);
    let mut state = AgentState::new(&cfg, vec![]);
    let journal_out = r#"{"__REALTIME_TIMESTAMP":"1758000000100000","SYSLOG_IDENTIFIER":"sshd","MESSAGE":"Failed password for root from 203.0.113.7 port 40000 ssh2"}
{"__REALTIME_TIMESTAMP":"1758000000200000","SYSLOG_IDENTIFIER":"sshd","MESSAGE":"Failed password for root from 203.0.113.7 port 40001 ssh2"}"#;
    let runners = runners_with("", journal_out, "");
    let evs = poll(&cfg, &mut deduper, 1_758_000_002_000, &runners, &mut state);
    assert!(evs.iter().any(|e| e.kind == EventKind::SshBruteForce));
    assert!(evs.iter().any(|e| e.kind == EventKind::NewListeningPort));
    assert!(evs
        .iter()
        .any(|e| e.kind == EventKind::NewOutboundConnection));
    // brute ids must be unique per (host, user, ip, ts): the server ignores an
    // id that it has, so a second episode for the same user+ip (or a second
    // host brute-forced from the same ip) must not collide.
    let brute = evs
        .iter()
        .find(|e| e.kind == EventKind::SshBruteForce)
        .unwrap();
    assert!(brute.id.contains("h-1-"));
    assert!(brute.id.contains(&brute.ts.to_string()));
}

#[test]
fn run_once_journal_cursor_advances_beyond_max_line() {
    let cfg = Config::default();
    let mut state = AgentState::new(&cfg, vec![]);
    let runners = runners_with(
        "",
        r#"{"__REALTIME_TIMESTAMP":"1758000000100000","SYSLOG_IDENTIFIER":"sshd","MESSAGE":"Accepted publickey for deploy from 198.51.100.24 port 51234 ssh2"}"#,
        "",
    );
    let mut deduper = Deduper::new(300);
    let evs = poll(&cfg, &mut deduper, 1_758_000_002_000, &runners, &mut state);
    assert!(evs.iter().any(|e| e.kind == EventKind::SshLogin));
    assert_eq!(state.journal_since_ms, 1_758_000_000_100);
    // the fake returns the same line forever; the ms cursor must skip it: no
    // ssh events AND no new seen-ip state mutation on the 2nd poll
    let evs = poll(&cfg, &mut deduper, 1_758_000_004_000, &runners, &mut state);
    assert!(!evs.iter().any(|e| e.kind == EventKind::SshLogin));
    assert_eq!(state.journal_since_ms, 1_758_000_000_100);
}

#[test]
fn run_once_phantom_failures_do_not_feed_brute_tracker() {
    let cfg = Config {
        ssh_brute_threshold: 2,
        ssh_brute_window_secs: 300,
        ..Default::default()
    };
    let mut deduper = Deduper::new(300);
    let mut state = AgentState::new(&cfg, vec![]);
    let runners = runners_with(
        "",
        r#"{"__REALTIME_TIMESTAMP":"1758000000100000","SYSLOG_IDENTIFIER":"sshd","MESSAGE":"Failed password for root from 203.0.113.7 port 40000 ssh2"}"#,
        "",
    );
    // poll 1: 1 failure counted, no episode (threshold 2)
    let evs = poll(&cfg, &mut deduper, 1_758_000_002_000, &runners, &mut state);
    assert!(!evs.iter().any(|e| e.kind == EventKind::SshBruteForce));
    // polls 2-3 re-read the same line: without the ms cursor each poll feeds
    // a phantom failure → episode fires on poll 2. With it: nothing.
    for _ in 0..2 {
        let evs = poll(&cfg, &mut deduper, 1_758_000_004_000, &runners, &mut state);
        assert!(
            !evs.iter().any(|e| e.kind == EventKind::SshBruteForce),
            "phantom episode fired"
        );
    }
}

#[test]
fn run_once_emits_sudo_and_root_login() {
    let cfg = Config::default();
    let mut state = AgentState::new(&cfg, vec![]);
    let runners = runners_with(
        "",
        r#"{"__REALTIME_TIMESTAMP":"1758000000200000","SYSLOG_IDENTIFIER":"sudo","MESSAGE":"deploy : TTY=pts/0 ; PWD=/home/deploy ; USER=root ; COMMAND=/bin/systemctl restart nginx"}
{"__REALTIME_TIMESTAMP":"1758000000500000","SYSLOG_IDENTIFIER":"sshd","MESSAGE":"Accepted password for root from 198.51.100.24 port 51235 ssh2"}"#,
        "",
    );
    let mut deduper = Deduper::new(300);
    let evs = poll(&cfg, &mut deduper, 1_758_000_002_000, &runners, &mut state);
    assert!(evs.iter().any(|e| e.kind == EventKind::SudoUsed));
    assert!(evs.iter().any(|e| e.kind == EventKind::RootLogin));
    // root login from a first-seen IP escalates to Critical
    let root = evs.iter().find(|e| e.kind == EventKind::RootLogin).unwrap();
    assert_eq!(root.severity, Severity::Critical);
}

#[test]
fn local_sudo_does_not_escalate_on_first_use() {
    let cfg = Config::default();
    let mut state = AgentState::new(&cfg, vec![]);
    let runners = runners_with(
        "",
        r#"{"__REALTIME_TIMESTAMP":"1758000000200000","SYSLOG_IDENTIFIER":"sudo","MESSAGE":"deploy : TTY=pts/0 ; PWD=/home/deploy ; USER=root ; COMMAND=/bin/systemctl restart nginx"}"#,
        "",
    );
    let mut deduper = Deduper::new(300);
    let evs = poll(&cfg, &mut deduper, 1_758_000_002_000, &runners, &mut state);
    let sudo = evs.iter().find(|e| e.kind == EventKind::SudoUsed).unwrap();
    assert_eq!(sudo.severity, Severity::Info);
}

#[test]
fn run_once_emits_service_restarted() {
    let cfg = Config::default();
    let mut state = AgentState::new(&cfg, vec![]);
    let runners = runners_with(
        "",
        r#"{"__REALTIME_TIMESTAMP":"1758000011000000","SYSLOG_IDENTIFIER":"systemd","MESSAGE":"Started myapp.service."}"#,
        "",
    );
    let mut deduper = Deduper::new(300);
    let evs = poll(&cfg, &mut deduper, 1_758_000_011_000, &runners, &mut state);
    let ev = evs
        .iter()
        .find(|e| e.kind == EventKind::ServiceRestarted)
        .expect("restart event");
    assert_eq!(ev.severity, Severity::Info);
    assert_eq!(ev.key, "svc:myapp.service");
}

#[test]
fn error_counts_window_and_emits_spike_at_threshold() {
    let cfg = Config {
        error_patterns: vec!["ERROR".to_string(), "Traceback".to_string()],
        error_threshold: 3,
        error_window_secs: 300,
        ..Default::default()
    };
    let mut state = AgentState::new(&cfg, vec![]);
    let lines = [
        r#"{"__REALTIME_TIMESTAMP":"1758000010000000","SYSLOG_IDENTIFIER":"myapp","MESSAGE":"request failed with ERROR 500"}"#,
        r#"{"__REALTIME_TIMESTAMP":"1758000011000000","SYSLOG_IDENTIFIER":"myapp","MESSAGE":"another ERROR occurred"}"#,
        r#"{"__REALTIME_TIMESTAMP":"1758000012000000","SYSLOG_IDENTIFIER":"myapp","MESSAGE":"Traceback (most recent call last)"}"#,
    ];
    let runners = runners_with("", &lines.join("\n"), "");
    let mut deduper = Deduper::new(300);
    let evs = poll(&cfg, &mut deduper, 1_758_000_013_000, &runners, &mut state);
    // per-pattern counts: ERROR=2, Traceback=1: neither crosses 3
    assert!(evs.iter().all(|e| e.kind != EventKind::ErrorRateSpike));
    // flood one pattern past the threshold in a second poll
    let flood = (0..4)
        .map(|i| {
            format!(
                r#"{{"__REALTIME_TIMESTAMP":"{}","SYSLOG_IDENTIFIER":"myapp","MESSAGE":"ERROR in request {}"}}"#,
                1_758_000_020_000_000_i64 + (i as i64) * 100_000,
                i
            )
        })
        .collect::<Vec<_>>()
        .join("\n");
    let runners = runners_with("", &flood, "");
    let evs = poll(&cfg, &mut deduper, 1_758_000_021_000, &runners, &mut state);
    let spike = evs.iter().find(|e| e.kind == EventKind::ErrorRateSpike);
    assert!(
        spike.is_some(),
        "threshold crossed must emit, got {:?}",
        evs.iter().map(|e| e.kind).collect::<Vec<_>>()
    );
    assert_eq!(spike.unwrap().severity, Severity::Warning);
    assert!(spike.unwrap().summary.contains("ERROR"));
}

#[test]
fn run_once_integrates_docker_sensor() {
    let cfg = Config::default();
    let mut state = AgentState::new(&cfg, vec![]);
    // seed the tracker: web was running
    state.docker.observe(
        &vec![ContainerState {
            id: "1".into(),
            name: "web".into(),
            image: "x".into(),
            state: "running".into(),
        }],
        1_000,
        "h-1",
        &mut Vec::new(),
    );
    let docker_out = r#"{"ID":"1","Image":"x","Command":"","CreatedAt":"","RunningFor":"","Ports":"","State":"exited","Status":"Exited (1)","Size":"","Names":"web","Labels":"","Mounts":""}"#;
    let runners = runners_with("", "", docker_out);
    let mut deduper = Deduper::new(300);
    let evs = poll(&cfg, &mut deduper, 2_000, &runners, &mut state);
    assert!(
        evs.iter().any(|e| e.kind == EventKind::ContainerStopped),
        "running→exited must emit"
    );
}

#[test]
fn run_once_error_spike_uses_runners_journal() {
    let cfg = Config {
        error_patterns: vec!["ERROR".to_string()],
        error_threshold: 2,
        error_window_secs: 300,
        ..Default::default()
    };
    let mut state = AgentState::new(&cfg, vec![]);
    let lines = (0..3)
        .map(|i| {
            format!(
                r#"{{"__REALTIME_TIMESTAMP":"{}","SYSLOG_IDENTIFIER":"app","MESSAGE":"ERROR boom {}"}}"#,
                1_758_000_010_000_000_i64 + (i as i64) * 100_000,
                i
            )
        })
        .collect::<Vec<_>>()
        .join("\n");
    let runners = runners_with("", &lines, "");
    let mut deduper = Deduper::new(300);
    let evs = poll(&cfg, &mut deduper, 1_758_000_011_000, &runners, &mut state);
    assert!(
        evs.iter().any(|e| e.kind == EventKind::ErrorRateSpike),
        "3 errors ≥ threshold 2"
    );
}

#[test]
fn error_patterns_are_regular_expressions() {
    let poll_with = |pattern: &str, message: &str| {
        let cfg = Config {
            error_patterns: vec![pattern.to_string()],
            error_threshold: 1,
            ..Default::default()
        };
        let mut state = AgentState::new(&cfg, vec![]);
        let line = format!(
            r#"{{"__REALTIME_TIMESTAMP":"1758000010000000","SYSLOG_IDENTIFIER":"app","MESSAGE":"{}"}}"#,
            message
        );
        poll(
            &cfg,
            &mut Deduper::new(300),
            1_758_000_011_000,
            &runners_with("", &line, ""),
            &mut state,
        )
        .iter()
        .any(|e| e.kind == EventKind::ErrorRateSpike)
    };
    assert!(poll_with("^5[0-9]{2} ", "503 from upstream"));
    assert!(!poll_with("^5[0-9]{2} ", "got 503 from upstream"));
    assert!(!poll_with("([", "(["), "a pattern that is none counts nothing");
}

#[test]
fn readings_and_changes_become_events() {
    let cfg = Config::default();
    let mut state = AgentState::new(&cfg, vec![]);
    let readings = Readings {
        mem: Some(GaugeReading {
            over: true,
            whole: "91".into(),
            tenth: "91.2".into(),
        }),
        swap: None,
        load: Some(LoadReading {
            severity: Severity::Critical,
            load: "8.00".into(),
            ratio: "4.0".into(),
            cores: "2".into(),
            load_detail: "8".into(),
            cores_detail: "2".into(),
        }),
        cpu: gauge(true),
        uptime_ms: None,
        mounts: vec![MountStat {
            mount_point: "/".into(),
            disk_severity: Severity::Critical,
            disk_whole: "95".into(),
            disk_tenth: "95.5".into(),
            total_bytes: 1000,
            inode_severity: Severity::Info,
            inode_whole: "1".into(),
            inode_tenth: "1.0".into(),
            read_only: false,
        }],
    };
    let evs = run_once(
        &cfg,
        &mut Deduper::new(300),
        "h-1",
        5_000,
        &fixture_procfs(),
        &runners_with("", "", ""),
        &readings,
        &vec![FimEvent {
            path: "/etc/passwd".into(),
            action: "MODIFY".into(),
        }],
        &mut state,
    );
    let of = |k: EventKind| evs.iter().find(|e| e.kind == k);
    assert_eq!(of(EventKind::MemHigh).unwrap().severity, Severity::Warning);
    assert_eq!(of(EventKind::LoadHigh).unwrap().severity, Severity::Critical);
    assert_eq!(of(EventKind::CpuSpike).unwrap().id, "h-1-cpu-5000");
    assert_eq!(of(EventKind::DiskHigh).unwrap().severity, Severity::Critical);
    assert_eq!(of(EventKind::FileChanged).unwrap().key, "fim:/etc/passwd");
    assert_eq!(evs.last().unwrap().kind, EventKind::FileChanged);
}

struct RecordingRunner {
    calls: RefCell<Vec<String>>,
    out: Result<String, String>,
}

impl CommandRunner for RecordingRunner {
    fn program(&self) -> &'static str {
        "recorder"
    }
    fn run(&self, args: &[&str]) -> Result<String, String> {
        self.calls.borrow_mut().push(args.join(" "));
        self.out.clone()
    }
}

fn recorder(out: Result<String, String>) -> RecordingRunner {
    RecordingRunner {
        calls: RefCell::new(vec![]),
        out,
    }
}

#[test]
fn a_poll_asks_each_command_once_and_survives_failures() {
    let cfg = Config {
        docker_enabled: true,
        ..Default::default()
    };
    let failed = || recorder(Err("exit 1".to_string()));
    let runners = Runners {
        sys: failed(),
        journal: failed(),
        docker: failed(),
        openssl: failed(),
    };
    let mut state = AgentState::new(&cfg, vec!["/etc/ssl/a.pem".into()]);
    state.journal_since_ms = 1_758_000_000_999;
    let evs = run_once(
        &cfg,
        &mut Deduper::new(300),
        "h-1",
        1_758_000_010_000,
        &ProcFs::new(vec![]),
        &runners,
        &Readings {
            mem: None,
            swap: None,
            load: None,
            cpu: gauge(false),
            uptime_ms: None,
            mounts: vec![],
        },
        &vec![],
        &mut state,
    );
    assert!(evs.is_empty());
    assert_eq!(runners.sys.calls.borrow().len(), 1);
    assert!(runners.journal.calls.borrow()[0].contains("--since @1758000000"));
    assert!(runners.docker.calls.borrow()[0].starts_with("ps"));
    assert!(runners.openssl.calls.borrow()[0].contains("/etc/ssl/a.pem"));
    assert_eq!(state.journal_since_ms, 1_758_000_000_999);
    assert_eq!(state.last_cert_scan, 1_758_000_010_000);
}
