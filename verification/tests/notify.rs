use watchtower::civil::parse_gm_date;
use watchtower::json::Json;
use watchtower::sdk::{Client, Environment, NextStep};
use watchtower::server::api_incidents::incident_json;
use watchtower::server::incidents::{Incident, IncidentEvent, IncidentStatus};
use watchtower::server::notify::{
    channels_for, default_routing, delivery_result, format_ts, notification_due, notify_incident,
    slack_payload, webhook_payload, NotifyConfig, RetryQueue,
};

fn sample_incident() -> Incident {
    Incident {
        id: "inc-1".into(),
        key: "rule:cfg:h-1".into(),
        host_id: "h-1".into(),
        severity: "Critical".into(),
        status: IncidentStatus::Open,
        headline: "myapp.service became unhealthy after a configuration change".into(),
        cause: "A configuration change was followed by a service failure within 300 seconds."
            .into(),
        actions: vec!["Roll back the config".into()],
        affected: vec!["h-1".into(), "svc:myapp.service".into()],
        created_at: 1000,
        updated_at: 1000,
        acked_at: None,
        resolved_at: None,
        timeline: vec![IncidentEvent {
            id: "e-1".into(),
            ts: 900,
            host_id: "h-1".into(),
            kind: "ServiceFailed".into(),
            severity: "Critical".into(),
            summary: "myapp failed".into(),
            evidence: "[]".into(),
        }],
    }
}

#[test]
fn webhook_payload_has_incident_anatomy() {
    let payload = webhook_payload(&incident_json(&sample_incident()), "http://ui/");
    let v: serde_json::Value = serde_json::from_str(&payload).unwrap();
    assert_eq!(v["severity"], "Critical");
    assert_eq!(
        v["headline"],
        "myapp.service became unhealthy after a configuration change"
    );
    assert!(v["cause"]
        .as_str()
        .unwrap()
        .contains("configuration change"));
    assert!(!v["timeline"].as_array().unwrap().is_empty());
    assert!(!v["actions"].as_array().unwrap().is_empty());
    assert_eq!(v["affected"][1], "svc:myapp.service");
    assert!(v["url"].as_str().unwrap().contains("inc-1"));
    assert_eq!(v["url"], "http://ui/#/incidents/\"inc-1\"");
    assert_eq!(v["type"], "watchtower.incident");
    assert_eq!(v["incident_id"], "inc-1");
    assert_eq!(v.to_string(), payload);
}

#[test]
fn slack_payload_has_severity_color() {
    let payload = slack_payload(&incident_json(&sample_incident()), "http://ui/");
    let v: serde_json::Value = serde_json::from_str(&payload).unwrap();
    let att = &v["attachments"][0];
    assert_eq!(att["color"], "danger");
    assert!(att["title"].as_str().unwrap().contains("myapp.service"));
    assert!(att["text"]
        .as_str()
        .unwrap()
        .contains("configuration change"));
    assert!(att["text"].as_str().unwrap().contains("myapp failed"));
    assert_eq!(att["footer"], "watchtower · http://ui");
    assert!(att["text"]
        .as_str()
        .unwrap()
        .ends_with("\n- 1970-01-01 00:00:00 — myapp failed (ServiceFailed)"));
    assert_eq!(v.to_string(), payload);
}

#[test]
fn incidents_with_missing_members_are_still_told_of() {
    let j = Json::Object(vec![
        ("severity".to_string(), Json::Text("Warning".into())),
        ("id".to_string(), Json::Text("inc-1".into())),
        (
            "timeline".to_string(),
            Json::List(vec![Json::Object(vec![])]),
        ),
    ]);
    let hook = webhook_payload(&j, "http://ui//");
    let v: serde_json::Value = serde_json::from_str(&hook).unwrap();
    assert!(v["headline"].is_null());
    assert_eq!(v["url"], "http://ui/#/incidents/\"inc-1\"");
    let slack = slack_payload(&j, "");
    let v: serde_json::Value = serde_json::from_str(&slack).unwrap();
    assert_eq!(v["attachments"][0]["color"], "warning");
    assert_eq!(v["attachments"][0]["title"], "[Warning] ");
    assert_eq!(
        v["attachments"][0]["text"],
        "\n\n- 1970-01-01 00:00:00 —  ()"
    );
    let slack = slack_payload(&Json::Null, "");
    let v: serde_json::Value = serde_json::from_str(&slack).unwrap();
    assert_eq!(v["attachments"][0]["color"], "good");
}

#[test]
fn routing_resolves_channels_per_severity() {
    let cfg = NotifyConfig {
        webhook_url: "http://w".into(),
        slack_url: "http://s".into(),
        routing: default_routing(),
        ..Default::default()
    };
    let c = channels_for(&cfg, "Critical");
    assert!(c.iter().any(|s| s == "webhook"));
    assert!(c.iter().any(|s| s == "slack"));
    let c = channels_for(&cfg, "Warning");
    assert!(!c.iter().any(|s| s == "webhook"));
    assert!(c.iter().any(|s| s == "slack"));
    let c = channels_for(&cfg, "Info");
    assert!(c.is_empty());
    assert!(channels_for(&cfg, "Other").is_empty());
}

#[test]
fn deliveries_go_to_the_routed_channels_that_have_a_url() {
    let j = incident_json(&sample_incident());
    let cfg = NotifyConfig {
        webhook_url: "http://w".into(),
        ..Default::default()
    };
    let d = notify_incident(&cfg, &j, "http://ui");
    assert_eq!(d.len(), 1);
    assert_eq!(d[0].channel, "webhook");
    assert_eq!(d[0].url, "http://w");
    assert!(d[0].payload.contains("watchtower.incident"));
    let cfg = NotifyConfig {
        webhook_url: "http://w".into(),
        slack_url: "http://s".into(),
        ..Default::default()
    };
    let d = notify_incident(&cfg, &j, "http://ui");
    let urls: Vec<&str> = d.iter().map(|d| d.url.as_str()).collect();
    assert_eq!(urls, vec!["http://w", "http://s"]);
    assert!(notify_incident(&cfg, &Json::Null, "http://ui").is_empty());
}

#[test]
fn format_ts_known_epoch() {
    assert_eq!(format_ts(1_000_000_000_000), "2001-09-09 01:46:40");
    assert_eq!(format_ts(1_758_000_000_000), "2025-09-16 05:20:00");
}

#[test]
fn times_are_shown_as_they_were_read() {
    for (text, shown) in [
        ("Sep 16 05:20:00 2025", "2025-09-16 05:20:00"),
        ("Feb 29 23:59:59 2000", "2000-02-29 23:59:59"),
        ("Jan 1 00:00:00 1970", "1970-01-01 00:00:00"),
        ("Dec 31 1:2:3 9999", "9999-12-31 01:02:03"),
    ] {
        let t = parse_gm_date(text).unwrap();
        assert_eq!(format_ts(t * 1000), shown);
        assert_eq!(format_ts(t * 1000 + 999), shown);
    }
}

#[test]
fn format_ts_before_the_epoch_and_far_out() {
    assert_eq!(format_ts(0), "1970-01-01 00:00:00");
    assert_eq!(format_ts(-999), "1970-01-01 00:00:00");
    assert_eq!(format_ts(-1000), "1969-12-31 23:59:59");
    assert_eq!(format_ts(-62_198_755_200_000), "-001-01-01 00:00:00");
    assert!(format_ts(i64::MAX).starts_with("292278994-08-17"));
    assert!(format_ts(i64::MIN).starts_with("-292275055-05-16"));
}

#[test]
fn retry_queue_drops_after_max_attempts() {
    let mut q = RetryQueue::new(3);
    q.push("http://u".into(), "p".into());
    let (_, _, a1) = q.try_take().unwrap();
    q.retry("http://u".into(), "p".into(), a1 + 1);
    let (_, _, a2) = q.try_take().unwrap();
    q.retry("http://u".into(), "p".into(), a2 + 1);
    assert_eq!(a1, 0);
    assert_eq!(a2, 1);
    let (_, _, a3) = q.try_take().unwrap();
    q.retry("http://u".into(), "p".into(), a3 + 1); // attempts 3 >= max 3 → dropped
    assert!(q.try_take().is_none());
}

#[test]
fn retry_queue_is_first_in_first_out() {
    let mut q = RetryQueue::new(3);
    q.push("a".into(), "1".into());
    q.push("b".into(), "2".into());
    let (url, payload, n) = q.try_take().unwrap();
    assert_eq!((url.as_str(), payload.as_str(), n), ("a", "1", 0));
    q.retry(url, payload, 1);
    assert_eq!(q.try_take().unwrap().0, "b");
    assert_eq!(q.try_take().unwrap().2, 1);
}

#[test]
fn deliveries_and_throttle() {
    assert!(delivery_result(204).is_ok());
    assert_eq!(delivery_result(500).unwrap_err(), "http 500");
    assert!(notification_due(None, 0, 60));
    assert!(!notification_due(Some(1_000), 60_999, 60));
    assert!(notification_due(Some(1_000), 61_000, 60));
}

fn client() -> Client {
    Client {
        endpoint: "http://ctl/".into(),
        token: "tok".into(),
        host_id: "h-1".into(),
        service: "api".into(),
        environment: "prod".into(),
    }
}

#[test]
fn capture_builds_the_expected_payload() {
    let r = client().capture(
        "error",
        "ValueError",
        "bad input",
        &[("app.rs".into(), 42, "validate".into())],
    );
    assert_eq!(r.url, "http://ctl/v1/errors");
    assert_eq!(r.authorization, "Bearer tok");
    let body: serde_json::Value = serde_json::from_str(&r.body).unwrap();
    assert_eq!(body["host_id"], "h-1");
    assert_eq!(body["service"], "api");
    assert_eq!(body["environment"], "prod");
    assert_eq!(body["exception"]["type"], "ValueError");
    assert_eq!(body["exception"]["level"], "error");
    assert_eq!(body["exception"]["message"], "bad input");
    assert_eq!(body["exception"]["frames"][0]["file"], "app.rs");
    assert_eq!(body["exception"]["frames"][0]["line"], 42);
    assert_eq!(body["exception"]["frames"][0]["function"], "validate");
    assert_eq!(body.to_string(), r.body);
}

#[test]
fn panics_are_fatal_and_have_no_frames() {
    let r = client().capture_panic("boom");
    let body: serde_json::Value = serde_json::from_str(&r.body).unwrap();
    assert_eq!(body["exception"]["type"], "Panic");
    assert_eq!(body["exception"]["level"], "fatal");
    assert_eq!(body["exception"]["message"], "boom");
    assert!(body["exception"]["frames"].as_array().unwrap().is_empty());
}

#[test]
fn capture_retries_once_then_returns_false() {
    assert_eq!(Client::after_attempt(0, None), NextStep::RetryAfter(200));
    assert_eq!(Client::after_attempt(1, None), NextStep::GiveUp);
    assert_eq!(
        Client::after_attempt(0, Some(500)),
        NextStep::RetryAfter(200)
    );
    assert_eq!(Client::after_attempt(0, Some(200)), NextStep::Delivered);
    assert_eq!(Client::after_attempt(1, Some(204)), NextStep::Delivered);
}

#[test]
fn clients_come_from_the_environment() {
    let env = Environment {
        endpoint: Some("http://c".into()),
        token: Some("t".into()),
        host_id: None,
        hostname: Some("box".into()),
        service: None,
        environment: None,
    };
    let c = Client::from_env(env).unwrap();
    assert_eq!(c.host_id, "box");
    assert_eq!(c.service, "app");
    assert_eq!(c.environment, "prod");
    let env = Environment {
        endpoint: Some("http://c".into()),
        token: None,
        host_id: None,
        hostname: None,
        service: None,
        environment: None,
    };
    assert!(Client::from_env(env).is_none());
}
