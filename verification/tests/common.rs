use watchtower::common::{
    kind_named, kind_text, severity_named, severity_text, Config, EventKind, Severity,
};

#[test]
fn severity_ordering_critical_gt_warning_gt_info() {
    assert!(Severity::Critical > Severity::Warning);
    assert!(Severity::Warning > Severity::Info);
}

#[test]
fn host_id_auto_is_invalid_for_shipping() {
    let cfg = Config::default();
    assert!(!cfg.host_id_valid());
}

#[test]
fn host_id_valid_accepts_real_id_rejects_whitespace() {
    let cfg = Config {
        host_id: "abc123".into(),
        ..Config::default()
    };
    assert!(cfg.host_id_valid());
    let cfg = Config {
        host_id: "  ".into(),
        ..Config::default()
    };
    assert!(!cfg.host_id_valid());
    let cfg = Config {
        host_id: "Auto".into(),
        ..Config::default()
    };
    assert!(!cfg.host_id_valid());
}

#[test]
fn host_unreachable_kind_serializes() {
    assert_eq!(kind_text(EventKind::HostUnreachable), "HostUnreachable");
}

#[test]
fn security_kinds_serialize() {
    for (kind, expected) in [
        (EventKind::SshLogin, "SshLogin"),
        (EventKind::SshFailed, "SshFailed"),
        (EventKind::SshBruteForce, "SshBruteForce"),
        (EventKind::RootLogin, "RootLogin"),
        (EventKind::SudoUsed, "SudoUsed"),
        (EventKind::FileChanged, "FileChanged"),
        (EventKind::NewListeningPort, "NewListeningPort"),
        (EventKind::NewOutboundConnection, "NewOutboundConnection"),
        (EventKind::ConnectionRateSpike, "ConnectionRateSpike"),
    ] {
        assert_eq!(kind_text(kind), expected);
    }
}

#[test]
fn m4_kinds_serialize() {
    for (kind, expected) in [
        (EventKind::ServiceRestarted, "ServiceRestarted"),
        (EventKind::AgentHeartbeatMissing, "AgentHeartbeatMissing"),
        (EventKind::AgentQueueGrowing, "AgentQueueGrowing"),
    ] {
        assert_eq!(kind_text(kind), expected);
    }
}

#[test]
fn m5_kinds_serialize() {
    for (kind, expected) in [
        (EventKind::ErrorRateSpike, "ErrorRateSpike"),
        (EventKind::ContainerStopped, "ContainerStopped"),
        (EventKind::ContainerCrashLoop, "ContainerCrashLoop"),
        (EventKind::CertExpiring, "CertExpiring"),
        (EventKind::OomKill, "OomKill"),
        (EventKind::KernelPanic, "KernelPanic"),
        (EventKind::FsReadOnly, "FsReadOnly"),
        (EventKind::ClockChange, "ClockChange"),
    ] {
        assert_eq!(kind_text(kind), expected);
    }
}

#[test]
fn p2t5_kind_serializes() {
    assert_eq!(kind_text(EventKind::RequestRateSpike), "RequestRateSpike");
}

#[test]
fn config_has_security_fields() {
    let cfg = Config::default();
    assert_eq!(cfg.ssh_brute_threshold, 5);
    assert_eq!(cfg.ssh_brute_window_secs, 300);
    assert!(cfg.watch_paths.is_empty());
}

#[test]
fn config_has_m5_fields() {
    let cfg = Config::default();
    assert!(cfg.error_patterns.is_empty());
    assert_eq!(cfg.error_window_secs, 300);
    assert_eq!(cfg.error_threshold, 10);
    assert!(cfg.docker_enabled);
    assert_eq!(cfg.cert_warn_days, 14);
    assert_eq!(cfg.cert_crit_days, 3);
    assert_eq!(cfg.cert_scan_interval_secs, 3600);
}

#[test]
fn config_has_accesslog_fields() {
    let cfg = Config::default();
    assert!(cfg.access_log_paths.is_empty());
    assert_eq!(cfg.request_rate_threshold, 200);
    assert_eq!(cfg.request_rate_window_secs, 60);
}

#[test]
fn config_defaults_for_shipping() {
    let cfg = Config::default();
    assert_eq!(cfg.host_id, "auto");
    assert_eq!(cfg.server_url, "");
    assert_eq!(cfg.poll_interval_secs, 15);
    assert_eq!(cfg.heartbeat_secs, 30);
    assert_eq!(cfg.dedup_secs, 300);
    assert_eq!(cfg.spool_dir, "/var/lib/watchtower/spool");
}

#[test]
fn names_lead_back_to_their_kinds() {
    assert_eq!(kind_named("PortScanSpike"), Some(EventKind::PortScanSpike));
    assert_eq!(kind_named("SwapHigh"), Some(EventKind::SwapHigh));
    assert_eq!(kind_named("swaphigh"), None);
    assert_eq!(kind_named(""), None);
    for s in [Severity::Info, Severity::Warning, Severity::Critical] {
        assert_eq!(severity_named(severity_text(s)), Some(s));
    }
    assert_eq!(severity_named("Fatal"), None);
}
