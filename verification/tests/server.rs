use watchtower::common::{AgentEvent, EventKind, Evidence, Severity};
use watchtower::server::api::{TelemetryPayload, API_PREFIX};
use watchtower::server::api_incidents::{
    incident_json, set_status_route, status_reply, IncidentQuery, StoreOutcome,
};
use watchtower::server::auth::{require_token, resolve_host_id, Auth};
use watchtower::server::config::{apply_telegram_env, ui_dir, ServerConfig, ServerConfigToml};
use watchtower::server::correlation::{
    assemble, default_rules, fallback_incidents, fill_template, in_cooldown, match_rule,
    merged_rules, plan_scan, scan_host, scan_since, Rule, RuleMatch,
};
use watchtower::server::errors::{fingerprint, severity_for};
use watchtower::server::events::{
    event_from_row, event_row_json, fetch_events_simple, EventQuery, EventRow,
};
use watchtower::server::hosts::{host_json, HostEntry};
use watchtower::server::incidents::{
    create_incident, incident_row, raise_severity, row_to_event, row_to_incident, set_status,
    summary_json, IncidentRow, IncidentStatus, IncidentSummary, TimelineRow,
};
use watchtower::server::ingest::{
    ingest, kind_wire, severity_wire, store_events, stored_reply, TelemetryBody, MAX_BODY_BYTES,
};
use watchtower::server::probes::{
    probe_ok, Checker, EpisodeTracker, ProbeConfig, ProbeResult,
};
use watchtower::server::supervise::Backoff;
use watchtower::server::watchdog::{watchdog_scan, HostRow, Limits, WatchdogState};
use watchtower::table::{Table, TextSet};

fn ev(id: &str, ts: i64, kind: EventKind, sev: Severity, key: &str) -> AgentEvent {
    AgentEvent {
        id: id.into(),
        ts,
        host_id: "h-1".into(),
        key: key.into(),
        kind,
        severity: sev,
        summary: format!("{} {:?}", id, kind),
        evidence: vec![],
    }
}

/// The rule that the correlation tests configure.
fn cfg_rule() -> Rule {
    Rule {
        id: "config_change_outage".into(),
        trigger: EventKind::ServiceFailed,
        supporting: vec![
            EventKind::FileChanged,
            EventKind::SshLogin,
            EventKind::SudoUsed,
            EventKind::ServiceRestarted,
        ],
        min_supporting: 1,
        window_secs: 300,
        cooldown_secs: 600,
        severity: Severity::Critical,
        headline: "{service} became unhealthy after a configuration change".into(),
        cause: "A configuration change was followed by a service failure within {window} seconds."
            .into(),
        actions: vec![
            "Review the change to the affected file".into(),
            "Roll back the latest configuration".into(),
        ],
        is_fallback: false,
    }
}

fn no_exclude() -> TextSet {
    TextSet::new()
}

// ------------------------------------------------------------- correlation

#[test]
fn matches_rule_when_trigger_and_supporting_in_window() {
    let rule = cfg_rule();
    let events = vec![
        ev(
            "e-1",
            999_999_700_000,
            EventKind::SshLogin,
            Severity::Info,
            "ssh:login:deploy",
        ),
        ev(
            "e-2",
            999_999_700_000,
            EventKind::FileChanged,
            Severity::Warning,
            "fim:/etc/myapp/config.yml",
        ),
        ev(
            "e-3",
            999_999_750_000,
            EventKind::ServiceRestarted,
            Severity::Info,
            "svc:myapp.service",
        ),
        ev(
            "e-4",
            999_999_800_000,
            EventKind::ServiceFailed,
            Severity::Critical,
            "svc:myapp.service",
        ),
    ];
    let m = match_rule(&rule, &events, 1_000_000_000_000, "h-1", &no_exclude());
    let matched = m.expect("matched");
    assert_eq!(matched.events.len(), 4);
    assert!(matched
        .events
        .iter()
        .any(|e| e.kind == EventKind::ServiceFailed));
    assert_eq!(matched.service, Some("myapp.service".to_string()));
}

#[test]
fn does_not_match_trigger_without_supporting() {
    let rule = cfg_rule();
    let events = vec![ev(
        "e-1",
        999_999_800_000,
        EventKind::ServiceFailed,
        Severity::Critical,
        "svc:myapp.service",
    )];
    assert!(match_rule(&rule, &events, 1_000_000_000_000, "h-1", &no_exclude()).is_none());
}

#[test]
fn does_not_match_events_outside_window() {
    let rule = cfg_rule();
    let events = vec![
        ev(
            "e-1",
            999_600_000_000,
            EventKind::FileChanged,
            Severity::Warning,
            "fim:x",
        ),
        ev(
            "e-2",
            999_999_800_000,
            EventKind::ServiceFailed,
            Severity::Critical,
            "svc:x",
        ),
    ];
    // e-1: now - e-1 = 400_000_000 ms > window 300_000 ms → outside
    assert!(match_rule(&rule, &events, 1_000_000_000_000, "h-1", &no_exclude()).is_none());
}

#[test]
fn excluded_events_do_not_match() {
    let rule = cfg_rule();
    let events = vec![
        ev(
            "e-2",
            999_999_700_000,
            EventKind::FileChanged,
            Severity::Warning,
            "fim:x",
        ),
        ev(
            "e-4",
            999_999_800_000,
            EventKind::ServiceFailed,
            Severity::Critical,
            "svc:x",
        ),
    ];
    let mut exclude = TextSet::new();
    exclude.insert("e-4");
    assert!(
        match_rule(&rule, &events, 1_000_000_000_000, "h-1", &exclude).is_none(),
        "trigger already absorbed"
    );
}

#[test]
fn headline_slots_are_filled() {
    let rule = cfg_rule();
    let events = vec![
        ev(
            "e-1",
            999_999_700_000,
            EventKind::FileChanged,
            Severity::Warning,
            "fim:x",
        ),
        ev(
            "e-2",
            999_999_800_000,
            EventKind::ServiceFailed,
            Severity::Critical,
            "svc:myapp.service",
        ),
    ];
    let m = match_rule(&rule, &events, 1_000_000_000_000, "h-1", &no_exclude()).unwrap();
    let assembled = assemble(&rule, &m, "h-1");
    assert_eq!(
        assembled.headline,
        "myapp.service became unhealthy after a configuration change"
    );
    assert!(assembled.cause.contains("300"));
    assert_eq!(assembled.actions.len(), 2);
    assert!(assembled.affected.iter().any(|a| a == "h-1"));
    assert!(assembled.affected.iter().any(|a| a == "svc:myapp.service"));
}

#[test]
fn fallback_covers_unmatched_warning_events() {
    let evs = vec![ev(
        "e-1",
        999_999_900_000,
        EventKind::CpuSpike,
        Severity::Warning,
        "cpu:usage",
    )];
    let incidents = fallback_incidents(&evs, 1_000_000_000_000, "h-1");
    assert_eq!(incidents.len(), 1);
    assert_eq!(incidents[0].headline, "CpuSpike: cpu:usage");
    assert_eq!(incidents[0].severity, "Warning");
}

#[test]
fn fallback_passes_over_info_events() {
    let evs = vec![
        ev("a", 1, EventKind::SudoUsed, Severity::Info, "sudo:x"),
        ev("b", 2, EventKind::OomKill, Severity::Critical, "oom"),
    ];
    let incidents = fallback_incidents(&evs, 10, "h-1");
    assert_eq!(incidents.len(), 1);
    assert_eq!(incidents[0].key, "event:OomKill:h-1:oom");
    assert_eq!(incidents[0].affected, vec!["h-1", "oom"]);
    assert_eq!(incidents[0].events[0].id, "b");
}

#[test]
fn default_rules_include_config_change_and_fallback() {
    let rules = default_rules();
    assert!(rules.iter().any(|r| r.id == "config_change_outage"));
    assert!(rules.iter().any(|r| r.id == "fallback"));
    assert!(rules.iter().any(|r| r.id == "ssh_bruteforce"));
    let cfg = rules
        .iter()
        .find(|r| r.id == "config_change_outage")
        .unwrap();
    assert!(
        cfg.supporting.contains(&EventKind::CpuSpike),
        "cpu spike absorbed so the demo yields ONE incident"
    );
}

#[test]
fn templates_without_a_service_say_so() {
    assert_eq!(
        fill_template("{service} on {host}, {host}", "h-1", None),
        "a service on h-1, h-1"
    );
    let m = RuleMatch {
        events: vec![ev("e", 5, EventKind::RootLogin, Severity::Critical, "h-1")],
        service: None,
    };
    let d = assemble(&default_rules()[2], &m, "h-1");
    assert_eq!(d.key, "rule:root_login:h-1");
    assert_eq!(d.headline, "Root access on h-1");
    assert_eq!(d.affected, vec!["h-1"], "each once");
}

#[test]
fn configured_rules_override_by_id_or_are_added() {
    let mut brute = cfg_rule();
    brute.id = "ssh_bruteforce".into();
    brute.cooldown_secs = 5;
    let mut own = cfg_rule();
    own.id = "own".into();
    let rules = merged_rules(&vec![brute, own]);
    let ids: Vec<&str> = rules.iter().map(|r| r.id.as_str()).collect();
    assert_eq!(
        ids,
        vec![
            "config_change_outage",
            "ssh_bruteforce",
            "root_login",
            "server_unreachable",
            "fallback",
            "own"
        ]
    );
    assert_eq!(rules[1].cooldown_secs, 5);
    assert_eq!(rules[1].trigger, EventKind::ServiceFailed);
}

/// ssh new ip → sudo → config modified → app restarted → app errors → cpu
/// rises → health check fails
fn demo_sequence() -> Vec<AgentEvent> {
    vec![
        ev(
            "e-ssh",
            999_999_750_000,
            EventKind::SshLogin,
            Severity::Warning,
            "ssh:login:deploy",
        ),
        ev(
            "e-sudo",
            999_999_780_000,
            EventKind::SudoUsed,
            Severity::Info,
            "sudo:deploy",
        ),
        ev(
            "e-fim",
            999_999_800_000,
            EventKind::FileChanged,
            Severity::Warning,
            "fim:/etc/myapp/config.yml",
        ),
        ev(
            "e-restart",
            999_999_830_000,
            EventKind::ServiceRestarted,
            Severity::Info,
            "svc:myapp.service",
        ),
        ev(
            "e-fail",
            999_999_860_000,
            EventKind::ServiceFailed,
            Severity::Critical,
            "svc:myapp.service",
        ),
        ev(
            "e-cpu",
            999_999_900_000,
            EventKind::CpuSpike,
            Severity::Warning,
            "cpu:usage",
        ),
        ev(
            "e-unreach",
            999_999_950_000,
            EventKind::HostUnreachable,
            Severity::Critical,
            "uptime:https://api.example.com",
        ),
    ]
}

#[test]
fn one_outage_is_one_incident_with_all_its_events() {
    let planned = scan_host(
        &default_rules(),
        &demo_sequence(),
        1_000_000_000_000,
        "demo-host",
    );
    assert_eq!(planned.len(), 1, "exactly ONE incident for the outage");
    let d = &planned[0].draft;
    assert_eq!(d.key, "rule:config_change_outage:demo-host");
    assert_eq!(d.severity, "Critical");
    assert_eq!(
        d.headline,
        "myapp.service became unhealthy after a configuration change"
    );
    assert_eq!(d.events.len(), 7);
    assert!(d.cause.contains("configuration change"));
    assert!(d.affected.iter().any(|a| a == "svc:myapp.service"));
    assert_eq!(planned[0].cooldown_secs, 600);
    // the same window 10ms after the resolve: still cooling down
    assert!(in_cooldown(600, Some(1_000_000_000_010), 1_000_000_000_020));
    // 600_001ms after it: over
    assert!(!in_cooldown(600, Some(1_000_000_000_010), 1_000_000_600_011));
    assert!(!in_cooldown(600, None, 0));
}

#[test]
fn each_host_is_scanned_on_its_own_events() {
    let on = |host: &str, e: AgentEvent| AgentEvent {
        host_id: host.into(),
        ..e
    };
    let t = 999_999_990_000;
    let events = vec![
        on("h-2", ev("a", t, EventKind::MemHigh, Severity::Warning, "mem")),
        on("h-1", ev("b", t, EventKind::RootLogin, Severity::Critical, "root")),
        on("h-2", ev("c", t, EventKind::SwapHigh, Severity::Warning, "swap")),
        on("h-1", ev("d", t, EventKind::OomKill, Severity::Critical, "oom")),
    ];
    let planned = plan_scan(&default_rules(), &events, 1_000_000_000_000);
    let shown: Vec<(&str, usize)> = planned
        .iter()
        .map(|p| (p.draft.key.as_str(), p.draft.events.len()))
        .collect();
    assert_eq!(
        shown,
        vec![
            ("event:MemHigh:h-2:mem", 1),
            ("event:SwapHigh:h-2:swap", 1),
            ("rule:root_login:h-1", 2),
        ]
    );
}

#[test]
fn a_scan_looks_back_over_the_longest_window() {
    let mut rules = default_rules();
    assert_eq!(scan_since(&rules, 1_000_000), 700_000);
    rules[2].window_secs = 301;
    assert_eq!(scan_since(&rules, 1_000_000), 699_000);
    assert_eq!(scan_since(&vec![], 5), 5);
    rules[2].window_secs = i64::MAX;
    assert_eq!(scan_since(&rules, 0), i64::MIN);
}

#[test]
fn what_no_rule_takes_becomes_single_incidents() {
    let events = vec![
        ev("a", 999_999_990_000, EventKind::MemHigh, Severity::Warning, "mem"),
        ev("b", 999_999_991_000, EventKind::RootLogin, Severity::Critical, "root"),
        ev("c", 999_000_000_000, EventKind::SwapHigh, Severity::Warning, "swap"),
        ev("d", 1_000_000_000_001, EventKind::OomKill, Severity::Critical, "oom"),
    ];
    let planned = scan_host(&default_rules(), &events, 1_000_000_000_000, "h-1");
    let keys: Vec<&str> = planned.iter().map(|p| p.draft.key.as_str()).collect();
    // the login's rule takes the whole window; what lies outside it is left
    assert_eq!(keys, vec!["rule:root_login:h-1"]);
    let planned = scan_host(
        &default_rules(),
        &vec![
            ev("a", 999_999_990_000, EventKind::MemHigh, Severity::Warning, "mem"),
            ev("c", 999_000_000_000, EventKind::SwapHigh, Severity::Warning, "swap"),
        ],
        1_000_000_000_000,
        "h-1",
    );
    assert_eq!(planned.len(), 1);
    assert_eq!(planned[0].draft.key, "event:MemHigh:h-1:mem");
    assert_eq!(planned[0].cooldown_secs, 300);
}

// -------------------------------------------------------------------- auth

fn auth() -> Auth {
    let mut hosts = Table::new();
    hosts.set("host-a".to_string(), "token-a".to_string());
    Auth {
        shared: "shared-token".into(),
        hosts,
    }
}

#[test]
fn shared_token_is_anonymous() {
    assert_eq!(resolve_host_id(&auth(), "shared-token"), None);
}

#[test]
fn per_host_token_resolves_host() {
    assert_eq!(
        resolve_host_id(&auth(), "token-a").as_deref(),
        Some("host-a")
    );
    assert_eq!(resolve_host_id(&auth(), "unknown"), None);
}

#[test]
fn the_gate_rejects_missing_empty_and_wrong_credentials() {
    let a = auth();
    assert_eq!(require_token(&a, None).err(), Some(401));
    assert_eq!(require_token(&a, Some("Bearer ")).err(), Some(401));
    assert_eq!(require_token(&a, Some("Bearer nope")).err(), Some(401));
    assert_eq!(require_token(&a, Some("shared-token")).err(), Some(401));
    assert_eq!(require_token(&a, Some("bearer token-a")).err(), Some(401));
    assert_eq!(
        require_token(&a, Some("Bearer shared-token")).unwrap().0,
        None
    );
    assert_eq!(
        require_token(&a, Some("Bearer token-a")).unwrap().0,
        Some("host-a".to_string())
    );
}

// ------------------------------------------------------------------ errors

#[test]
fn fingerprint_is_deterministic_and_discriminating() {
    let f1 = fingerprint(
        "api",
        "ValueError",
        &[("app.py".into(), 42), ("app.py".into(), 10)],
    );
    let f2 = fingerprint(
        "api",
        "ValueError",
        &[("app.py".into(), 42), ("app.py".into(), 10)],
    );
    assert_eq!(f1, f2, "same exception → same fingerprint");
    let f3 = fingerprint(
        "api",
        "ValueError",
        &[("app.py".into(), 41), ("app.py".into(), 10)],
    );
    assert_ne!(f1, f3, "different line → different fingerprint");
    let f4 = fingerprint(
        "web",
        "ValueError",
        &[("app.py".into(), 42), ("app.py".into(), 10)],
    );
    assert_ne!(f1, f4, "different service → different fingerprint");
    let f5 = fingerprint(
        "api",
        "TypeError",
        &[("app.py".into(), 42), ("app.py".into(), 10)],
    );
    assert_ne!(f1, f5, "different type → different fingerprint");
    assert!(f1.len() >= 16, "readable hash");
}

#[test]
fn fingerprint_uses_first_three_frames() {
    let a = fingerprint(
        "s",
        "T",
        &[("f1".into(), 1), ("f2".into(), 2), ("f3".into(), 3)],
    );
    let b = fingerprint(
        "s",
        "T",
        &[
            ("f1".into(), 1),
            ("f2".into(), 2),
            ("f3".into(), 3),
            ("f4".into(), 99),
        ],
    );
    assert_eq!(a, b, "frames beyond the first 3 don't matter");
}

#[test]
fn fingerprints_are_fnv_1a_of_their_input() {
    let mut h = 0xcbf29ce484222325u64;
    for b in "dienst-ß\0T\0f:7;".bytes() {
        h ^= b as u64;
        h = h.wrapping_mul(0x100000001b3);
    }
    assert_eq!(
        fingerprint("dienst-ß", "T", &[("f".into(), 7)]),
        format!("{:016x}", h)
    );
}

#[test]
fn level_maps_to_severity() {
    assert_eq!(severity_for("fatal"), Severity::Critical);
    assert_eq!(severity_for("error"), Severity::Critical);
    assert_eq!(severity_for("warning"), Severity::Warning);
    assert_eq!(severity_for("info"), Severity::Info);
    assert_eq!(severity_for("debug"), Severity::Info);
    assert_eq!(
        severity_for("unknown-level"),
        Severity::Critical,
        "unknown → loud"
    );
    assert_eq!(severity_for(""), Severity::Critical);
    assert_eq!(severity_for("WARNING"), Severity::Warning);
    assert_eq!(severity_for("Debug"), Severity::Info);
}

// ------------------------------------------------------------------ probes

#[test]
fn episode_triggers_at_threshold_and_resets() {
    let mut ep = EpisodeTracker::default();
    assert!(!ep.observe(false, 3)); // 1st consecutive fail
    assert!(!ep.observe(false, 3)); // 2nd
    assert!(ep.observe(false, 3)); // 3rd → episode emitted
    assert!(!ep.observe(false, 3)); // counter reset, restart counting
}

#[test]
fn recovery_resets_counter() {
    let mut ep = EpisodeTracker::default();
    assert!(!ep.observe(false, 3));
    assert!(!ep.observe(false, 3));
    ep.observe(true, 3); // recovery
    assert_eq!(ep.fails(), 0);
    assert!(!ep.observe(false, 3)); // only 1 fail again
}

#[test]
fn only_2xx_responses_are_well() {
    assert!(probe_ok(Some(200)) && probe_ok(Some(299)));
    assert!(!probe_ok(Some(503)) && !probe_ok(Some(301)) && !probe_ok(None));
}

fn looks_random(id: &str) -> bool {
    id.len() == 36
        && id.as_bytes()[14] == b'4'
        && id.chars().enumerate().all(|(i, c)| match i {
            8 | 13 | 18 | 23 => c == '-',
            _ => c.is_ascii_hexdigit() && !c.is_ascii_uppercase(),
        })
}

#[test]
fn ticks_report_each_unreachable_endpoint_once_per_episode() {
    let probe = |url: &str| ProbeConfig {
        url: url.into(),
        fail_threshold: 2,
        ..Default::default()
    };
    let round = |a: bool, b: bool| {
        vec![
            ProbeResult {
                probe: probe("http://a"),
                ok: a,
            },
            ProbeResult {
                probe: probe(""),
                ok: false,
            },
            ProbeResult {
                probe: probe("http://b"),
                ok: b,
            },
        ]
    };
    let mut c = Checker::new();
    assert!(c.tick_all(&round(false, true), 1).is_empty());
    let evs = c.tick_all(&round(false, false), 2);
    assert_eq!(evs.len(), 1);
    assert_eq!(evs[0].kind, EventKind::HostUnreachable);
    assert_eq!(evs[0].host_id, "uptime");
    assert_eq!(evs[0].key, "uptime:http://a");
    assert_eq!(
        evs[0].summary,
        "http://a unreachable after 2 consecutive probe failures"
    );
    assert_eq!(
        evs[0].evidence[0].detail,
        "ProbeUrl=http://a FailThreshold=2"
    );
    assert!(looks_random(&evs[0].id), "{}", evs[0].id);
    let again = c.tick_all(&round(true, false), 3);
    assert_eq!(again.len(), 1);
    assert_eq!(again[0].key, "uptime:http://b");
    assert_ne!(again[0].id, evs[0].id);
}

// ------------------------------------------------------------- supervision

#[test]
fn backoff_sequence_caps() {
    let mut d = Backoff::default();
    assert_eq!(d.next(), 1);
    assert_eq!(d.next(), 2);
    assert_eq!(d.next(), 4);
    assert_eq!(d.next(), 8);
    assert_eq!(d.next(), 16);
    assert_eq!(d.next(), 30, "cap at 30s");
    assert_eq!(d.next(), 30);
    d.reset();
    assert_eq!(d.next(), 1);
}

#[test]
fn a_clean_exit_ends_the_backoff() {
    let mut d = Backoff::default();
    assert_eq!(d.pause_after(false), 1);
    assert_eq!(d.pause_after(false), 2);
    assert_eq!(d.pause_after(true), 1);
    assert_eq!(d.pause_after(false), 1);
}

// ---------------------------------------------------------------- watchdog

fn host(last_seen: i64, queue_len: i64) -> Vec<HostRow> {
    vec![HostRow {
        host_id: "h-1".into(),
        last_seen,
        queue_len,
    }]
}

const LIMITS: Limits = Limits {
    heartbeat_grace_secs: 90,
    queue_threshold: 100,
};

#[test]
fn missing_heartbeat_emits_event_once_per_episode() {
    let mut w = WatchdogState::default();
    let now = 1_000_000_000_000;
    let grace = 90_000;
    let evs = watchdog_scan(&mut w, &host(now, 0), &LIMITS, now + grace + 1000);
    assert_eq!(evs.len(), 1);
    let ev = &evs[0];
    assert_eq!(ev.kind, EventKind::AgentHeartbeatMissing);
    assert_eq!(ev.severity, Severity::Critical);
    assert_eq!(ev.host_id, "h-1");
    assert_eq!(
        ev.summary,
        "h-1 stopped reporting (last heartbeat 91s ago)"
    );
    assert_eq!(
        ev.evidence[0].detail,
        "LastSeen=1000000000000 GraceSecs=90"
    );
    assert!(looks_random(&ev.id));
    // second scan: same episode, no new event
    let evs = watchdog_scan(&mut w, &host(now, 0), &LIMITS, now + grace + 2000);
    assert!(evs.is_empty());
    // heartbeat arrives → episode resets → next miss re-emits
    let later = now + 200_000;
    let evs = watchdog_scan(&mut w, &host(later, 0), &LIMITS, later + grace + 1000);
    assert_eq!(evs.len(), 1, "new episode after recovery re-emits");
    // a host that reports in between starts over as well
    assert!(watchdog_scan(&mut w, &host(later, 0), &LIMITS, later + 1).is_empty());
    assert_eq!(
        watchdog_scan(&mut w, &host(later, 0), &LIMITS, later + grace + 1000).len(),
        1
    );
}

#[test]
fn each_silence_of_each_host_is_reported_once() {
    let mut w = WatchdogState::default();
    let rows = |a: i64, b: i64| {
        let mut v = host(a, 0);
        v.push(HostRow {
            host_id: "h-2".into(),
            last_seen: b,
            queue_len: 101,
        });
        v
    };
    let mut seen: Vec<(String, EventKind)> = Vec::new();
    for (a, b, now) in [
        (1_000, 1_000, 50_000),
        (1_000, 60_000, 100_000),
        (1_000, 60_000, 150_001),
        (1_000, 60_000, 200_000),
        (200_001, 60_000, 290_001),
        (200_001, 60_000, 290_002),
    ] {
        for e in watchdog_scan(&mut w, &rows(a, b), &LIMITS, now) {
            assert_eq!(e.ts, now);
            if e.kind == EventKind::AgentQueueGrowing {
                assert_eq!(e.host_id, "h-2");
            } else {
                seen.push((format!("{} {}", e.host_id, now), e.kind));
            }
        }
    }
    let missing = |s: &str| (s.to_string(), EventKind::AgentHeartbeatMissing);
    assert_eq!(
        seen,
        vec![
            missing("h-1 100000"),
            missing("h-2 150001"),
            missing("h-1 290002"),
        ]
    );
}

#[test]
fn growing_queue_emits_throttled_warning() {
    let mut w = WatchdogState::default();
    let now = 1_000_000_000_000;
    let evs = watchdog_scan(&mut w, &host(now, 150), &LIMITS, now);
    assert_eq!(evs.len(), 1);
    assert_eq!(evs[0].kind, EventKind::AgentQueueGrowing);
    assert_eq!(evs[0].severity, Severity::Warning);
    assert_eq!(
        evs[0].summary,
        "h-1 telemetry queue is growing (150 events)"
    );
    let evs = watchdog_scan(&mut w, &host(now, 150), &LIMITS, now + 1000);
    assert_eq!(
        evs.len(),
        1,
        "re-emits each scan while above threshold (dedup throttles)"
    );
    assert!(watchdog_scan(&mut w, &host(now, 100), &LIMITS, now).is_empty());
}

// --------------------------------------------------------------- telemetry

fn batch(n: usize) -> TelemetryBody {
    TelemetryBody::Payload(TelemetryPayload {
        batch: (0..n)
            .map(|i| {
                ev(
                    &format!("e-{}", i),
                    1000 + i as i64,
                    EventKind::ServiceFailed,
                    Severity::Warning,
                    &format!("k-{}", i),
                )
            })
            .collect(),
    })
}

#[test]
fn per_host_token_forces_host_id() {
    let stored = ingest(Some("host-a".into()), batch(1)).ok().unwrap();
    assert_eq!(stored[0].id, "e-0");
    assert_eq!(stored[0].host_id, "host-a");
    let stored = ingest(None, batch(2)).ok().unwrap();
    assert_eq!(stored.len(), 2);
    assert_eq!(stored[1].host_id, "h-1");
}

#[test]
fn ingest_rejects_empty_batch() {
    let r = ingest(None, batch(0)).err().unwrap();
    assert_eq!(r.status, 400);
    assert_eq!(r.body.render(), r#"{"error":"empty batch"}"#);
}

#[test]
fn ingest_rejects_oversized_body() {
    let r = ingest(None, TelemetryBody::TooLarge).err().unwrap();
    assert_eq!(r.status, 400);
    assert_eq!(r.body.render(), r#"{"error":"body too large"}"#);
    let r = ingest(None, TelemetryBody::Invalid).err().unwrap();
    assert_eq!(r.status, 400);
    assert_eq!(r.body.render(), r#"{"error":"invalid payload"}"#);
    assert_eq!(MAX_BODY_BYTES, 12 * 1024 * 1024);
}

#[test]
fn stored_batches_are_counted() {
    assert_eq!(store_events(&vec![1, 0, 1, 0, 0]), (2, 3));
    assert_eq!(store_events(&vec![]), (0, 0));
    let r = stored_reply(Some((2, 3)));
    assert_eq!(r.status, 200);
    assert_eq!(r.body.render(), r#"{"accepted":2,"duplicates":3}"#);
    let r = stored_reply(None);
    assert_eq!(r.status, 500);
    assert_eq!(r.body.render(), r#"{"error":"store failed"}"#);
    assert_eq!(API_PREFIX, "/v1");
}

// ------------------------------------------------------------------ events

fn event_row(kind: &str, severity: &str) -> EventRow {
    EventRow {
        id: "e-1".into(),
        ts: 7,
        host_id: "h-1".into(),
        key: "k".into(),
        kind: kind.into(),
        severity: severity.into(),
        summary: "s".into(),
        evidence: vec![Evidence {
            ts: 7,
            source: "test".into(),
            detail: "d".into(),
        }],
    }
}

#[test]
fn stored_events_are_read_back() {
    let e = event_from_row(event_row(
        &kind_wire(EventKind::CpuSpike),
        &severity_wire(Severity::Warning),
    ))
    .unwrap();
    assert_eq!(e.kind, EventKind::CpuSpike);
    assert_eq!(e.severity, Severity::Warning);
    assert_eq!(e.evidence[0].source, "test");
    // a name is read as the inside of a JSON string
    let e = event_from_row(event_row("Cpu\\u0053pike", "Info")).unwrap();
    assert_eq!(e.kind, EventKind::CpuSpike);
    assert!(event_from_row(event_row("Bogus", "Info")).is_none());
    assert!(event_from_row(event_row("CpuSpike", "Loud")).is_none());
    let known = fetch_events_simple(vec![
        event_row("Bogus", "Info"),
        event_row("OomKill", "Critical"),
    ]);
    assert_eq!(known.len(), 1);
    assert_eq!(known[0].kind, EventKind::OomKill);
}

fn timeline_row(evidence_json: &str) -> TimelineRow {
    TimelineRow {
        id: "e-1".into(),
        ts: 7,
        host_id: "h-1".into(),
        kind: "CpuSpike".into(),
        severity: "Warning".into(),
        summary: "say \"hi\"\n".into(),
        evidence_json: evidence_json.into(),
    }
}

#[test]
fn listed_events_carry_their_evidence() {
    assert_eq!(
        event_row_json(timeline_row("[ {\"source\" : \"test\"} ]")).render(),
        r#"{"evidence":[{"source":"test"}],"host_id":"h-1","id":"e-1","kind":"CpuSpike","severity":"Warning","summary":"say \"hi\"\n","ts":7}"#
    );
    assert!(event_row_json(timeline_row("nonsense"))
        .render()
        .starts_with(r#"{"evidence":[],"#));
    assert!(event_row_json(timeline_row(" { } "))
        .render()
        .starts_with(r#"{"evidence":{},"#));
    assert_eq!(row_to_event(timeline_row("[ 1, 2 ]")).evidence, "[1,2]");
    assert_eq!(row_to_event(timeline_row("{}")).evidence, "[]");
}

#[test]
fn query_limits_are_kept_within_bounds() {
    let limit = |n: i64| {
        EventQuery {
            limit: n,
            ..Default::default()
        }
        .row_limit()
    };
    assert_eq!(limit(0), 1);
    assert_eq!(limit(-5), 1);
    assert_eq!(limit(100), 100);
    assert_eq!(limit(5000), 1000);
    let q = IncidentQuery {
        limit: i64::MAX,
        ..Default::default()
    };
    assert_eq!(q.row_limit(), 1000);
}

#[test]
fn hosts_are_listed_as_json() {
    let h = HostEntry {
        host_id: "h-1".into(),
        first_seen: 1,
        last_seen: 2,
        version: "0.1.0".into(),
        queue_len: 3,
    };
    assert_eq!(
        host_json(&h).render(),
        r#"{"first_seen":1,"host_id":"h-1","last_seen":2,"queue_len":3,"version":"0.1.0"}"#
    );
}

// --------------------------------------------------------------- incidents

fn stored_row(status: &str) -> IncidentRow {
    IncidentRow {
        id: "inc-1".into(),
        key: "key-1".into(),
        host_id: "h-1".into(),
        severity: "Warning".into(),
        headline: "h1".into(),
        cause: "c".into(),
        actions_json: r#"["Review the change"]"#.into(),
        affected_json: "not json".into(),
        created_at: 1,
        updated_at: 2,
        acked_at: None,
        resolved_at: Some(9),
        status: status.into(),
    }
}

#[test]
fn rows_become_incidents() {
    let i = row_to_incident(stored_row("resolved"));
    assert_eq!(i.status, IncidentStatus::Resolved);
    assert_eq!(i.actions, vec!["Review the change"]);
    assert!(i.affected.is_empty());
    assert!(i.timeline.is_empty());
    assert_eq!(
        row_to_incident(stored_row("acknowledged")).status,
        IncidentStatus::Acknowledged
    );
    assert_eq!(
        row_to_incident(stored_row("whatever")).status,
        IncidentStatus::Open
    );
    let mut wrong = stored_row("open");
    wrong.actions_json = "[1]".into();
    assert!(row_to_incident(wrong).actions.is_empty());
}

#[test]
fn stored_incident_is_read_back() {
    let actions = vec!["Say \"no\"".to_string(), "a\\b, c".to_string(), String::new()];
    let i = create_incident(
        None,
        "key-1",
        "h-1",
        "Critical",
        "h1",
        "c\n",
        &actions,
        &vec![],
        7,
    );
    let row = incident_row(&i);
    assert_eq!(row.actions_json, r#"["Say \"no\"","a\\b, c",""]"#);
    assert_eq!(row.affected_json, "[]");
    assert_eq!(row.status, "open");
    let back = row_to_incident(row);
    assert_eq!(format!("{:?}", back), format!("{:?}", i));
    assert_eq!(back.actions, actions);
}

#[test]
fn open_incident_with_same_key_is_returned() {
    let first = create_incident(None, "key-1", "h-1", "Warning", "h1", "c", &vec![], &vec![], 5);
    assert!(looks_random(&first.id));
    assert_eq!(first.status, IncidentStatus::Open);
    assert_eq!((first.created_at, first.updated_at), (5, 5));
    let id = first.id.clone();
    let again = create_incident(
        Some(first),
        "key-1",
        "h-1",
        "Warning",
        "h2",
        "c",
        &vec![],
        &vec![],
        6,
    );
    assert_eq!(again.id, id);
    assert_eq!(
        again.headline, "h1",
        "create returns the EXISTING incident for the caller"
    );
}

#[test]
fn severities_only_rise() {
    assert!(raise_severity("Info", "Warning"));
    assert!(raise_severity("Info", "Critical"));
    assert!(raise_severity("Warning", "Critical"));
    assert!(!raise_severity("Warning", "Info"));
    assert!(!raise_severity("Critical", "Warning"));
    assert!(!raise_severity("Warning", "Warning"));
}

#[test]
fn statuses_are_set_by_their_actions() {
    assert_eq!(
        set_status_route("ack").ok(),
        Some(IncidentStatus::Acknowledged)
    );
    assert_eq!(
        set_status_route("resolve").ok(),
        Some(IncidentStatus::Resolved)
    );
    let r = set_status_route("delete").err().unwrap();
    assert_eq!(r.status, 404);
    assert_eq!(r.body.render(), r#"{"error":"unknown action"}"#);
    assert_eq!(
        set_status(IncidentStatus::Acknowledged),
        Some(("acknowledged", "acked_at"))
    );
    assert_eq!(
        set_status(IncidentStatus::Resolved),
        Some(("resolved", "resolved_at"))
    );
    assert_eq!(set_status(IncidentStatus::Open), None);
    assert_eq!(
        status_reply(StoreOutcome::Updated).body.render(),
        r#"{"ok":true}"#
    );
    assert_eq!(status_reply(StoreOutcome::NotFound).status, 404);
    assert_eq!(status_reply(StoreOutcome::Failed).status, 500);
}

#[test]
fn incidents_are_shown_as_json() {
    let mut i = row_to_incident(stored_row("acknowledged"));
    i.timeline.push(row_to_event(timeline_row("[]")));
    assert_eq!(
        incident_json(&i).render(),
        concat_json(&[
            r#"{"acked_at":null,"actions":["Review the change"],"affected":[],"cause":"c","#,
            r#""created_at":1,"headline":"h1","host_id":"h-1","id":"inc-1","key":"key-1","#,
            r#""resolved_at":9,"severity":"Warning","status":"acknowledged","timeline":["#,
            r#"{"evidence":[],"host_id":"h-1","id":"e-1","kind":"CpuSpike","severity":"Warning","#,
            r#""summary":"say \"hi\"\n","ts":7}],"updated_at":2}"#,
        ])
    );
    let s = IncidentSummary {
        id: "i".into(),
        key: "k".into(),
        host_id: "h".into(),
        severity: "Info".into(),
        headline: "hl".into(),
        status: "open".into(),
        cause: "".into(),
        created_at: 1,
        updated_at: 2,
        acked_at: Some(3),
        resolved_at: None,
    };
    assert_eq!(
        summary_json(&s).render(),
        concat_json(&[
            r#"{"acked_at":3,"cause":"","created_at":1,"headline":"hl","host_id":"h","id":"i","#,
            r#""key":"k","resolved_at":null,"severity":"Info","status":"open","updated_at":2}"#,
        ])
    );
}

fn concat_json(parts: &[&str]) -> String {
    parts.concat()
}

#[test]
fn rendered_json_is_what_serde_json_writes() {
    let mut i = row_to_incident(stored_row("open"));
    i.headline = "tab\t quote\" back\\ bell\u{7} form\u{c} del\u{7f} ümläut 🦀 nul\0".into();
    i.actions = vec!["a,b".into(), "\u{8}\r\u{1f}".into()];
    let text = incident_json(&i).render();
    let value: serde_json::Value = serde_json::from_str(&text).unwrap();
    assert_eq!(value["headline"], i.headline.as_str());
    assert_eq!(value["actions"][1], "\u{8}\r\u{1f}");
    assert_eq!(value.to_string(), text);
}

// ----------------------------------------------------------- configuration

fn empty_file() -> ServerConfigToml {
    ServerConfigToml {
        listen: None,
        db_url: None,
        auth_token: None,
        host_tokens: None,
        probe: vec![],
        probes: vec![],
        scan_interval_secs: None,
        notify_min_interval_secs: None,
        rule: vec![],
        rules: None,
        notify: None,
        ui_base_url: None,
        watchdog_heartbeat_grace_secs: None,
        watchdog_queue_threshold: None,
    }
}

#[test]
fn config_config_parses_with_defaults() {
    let cfg = ServerConfig::from_toml(ServerConfigToml {
        listen: Some("0.0.0.0:9999".into()),
        auth_token: Some("tok".into()),
        ..empty_file()
    });
    assert_eq!(cfg.listen, "0.0.0.0:9999");
    assert_eq!(cfg.auth_token, "tok");
    assert!(cfg.db_url.contains("watchtower.db"));
    assert!(cfg.may_run());
    assert!(!ServerConfig::default().may_run());
}

#[test]
fn probes_accept_both_toml_keys() {
    let probe = |url: &str| ProbeConfig {
        url: url.into(),
        ..Default::default()
    };
    let cfg = ServerConfig::from_toml(ServerConfigToml {
        probe: vec![probe("http://a")],
        probes: vec![probe("http://b")],
        ..empty_file()
    });
    assert_eq!(cfg.probes.len(), 2);
    assert_eq!(cfg.probes[0].url, "http://a");
    assert_eq!(cfg.probes[1].url, "http://b");
}

#[test]
fn rules_accept_both_toml_keys() {
    let rule = |id: &str| {
        let mut r = cfg_rule();
        r.id = id.into();
        r
    };
    let cfg = ServerConfig::from_toml(ServerConfigToml {
        rule: vec![rule("a")],
        rules: Some(vec![rule("b")]),
        ..empty_file()
    });
    assert_eq!(cfg.rules.len(), 2);
    assert_eq!(cfg.rules[0].id, "a");
    assert_eq!(cfg.rules[1].id, "b");
}

#[test]
fn telegram_env_overrides_apply() {
    let mut cfg = ServerConfig::default();
    apply_telegram_env(
        &mut cfg,
        Some("tok".into()),
        Some("12345".into()),
        Some("pw".into()),
    );
    assert_eq!(cfg.notify.telegram_token.as_deref(), Some("tok"));
    assert_eq!(cfg.notify.telegram_chat_id, Some(12345));
    assert_eq!(cfg.notify.telegram_password.as_deref(), Some("pw"));
    let mut cfg2 = ServerConfig::default();
    apply_telegram_env(&mut cfg2, Some("tok".into()), Some("abc".into()), None);
    assert_eq!(cfg2.notify.telegram_chat_id, None);
    assert_eq!(cfg2.notify.telegram_password, None);
}

#[test]
fn the_ui_directory_is_found_in_order() {
    assert_eq!(ui_dir(Some("/srv/ui".into()), "/b".into(), true), "/srv/ui");
    assert_eq!(ui_dir(None, "/b".into(), true), "/b");
    assert_eq!(ui_dir(None, "/b".into(), false), "static");
}
