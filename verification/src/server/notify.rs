//! Who is told of an incident, in which words, and how often.

use std::collections::VecDeque;

use vstd::prelude::*;

use crate::civil;
use crate::json;
use crate::json::{Json, JsonView};
use crate::seqs;
use crate::table;
use crate::table::{Table, TextList};
use crate::text;

verus! {

/// The default channels of each severity.
pub open spec fn shipped_routing() -> Seq<(Seq<char>, Seq<Seq<char>>)> {
    seq![
        ("Critical"@, seq!["webhook"@, "slack"@]),
        ("Warning"@, seq!["slack"@]),
        ("Info"@, seq![]),
    ]
}

/// Per-severity channel routing. Defaults: Critical → webhook+slack,
/// Warning → slack, Info → none (timeline only).
pub fn default_routing() -> (r: Table<String, TextList>)
    ensures
        r@ == shipped_routing(),
{
    let mut critical: Vec<String> = Vec::new();
    critical.push(text::owned("webhook"));
    critical.push(text::owned("slack"));
    let mut warning: Vec<String> = Vec::new();
    warning.push(text::owned("slack"));
    let info: Vec<String> = Vec::new();
    let mut entries: Vec<(String, TextList)> = Vec::new();
    assert(text::views(critical@) =~= seq!["webhook"@, "slack"@]);
    assert(text::views(warning@) =~= seq!["slack"@]);
    assert(text::views(info@) =~= seq![]);
    entries.push((text::owned("Critical"), TextList { items: critical }));
    entries.push((text::owned("Warning"), TextList { items: warning }));
    entries.push((text::owned("Info"), TextList { items: info }));
    let r = Table { entries };
    assert(r@ =~= shipped_routing());
    r
}

/// Notification channels and per-severity routing.
pub struct NotifyConfig {
    pub webhook_url: String,
    pub slack_url: String,
    pub routing: Table<String, TextList>,
    pub telegram_token: Option<String>,
    /// The chat to notify; without it, the first chat that writes to the bot.
    pub telegram_chat_id: Option<i64>,
    /// What a chat has to say before it can register.
    pub telegram_password: Option<String>,
}

/// What a `NotifyConfig` says.
#[verifier::ext_equal]
pub struct NotifyView {
    pub webhook_url: Seq<char>,
    pub slack_url: Seq<char>,
    pub routing: Seq<(Seq<char>, Seq<Seq<char>>)>,
    pub telegram_token: Option<Seq<char>>,
    pub telegram_chat_id: Option<i64>,
    pub telegram_password: Option<Seq<char>>,
}

impl View for NotifyConfig {
    type V = NotifyView;

    open spec fn view(&self) -> NotifyView {
        NotifyView {
            webhook_url: self.webhook_url@,
            slack_url: self.slack_url@,
            routing: self.routing@,
            telegram_token: text::opt_view(self.telegram_token),
            telegram_chat_id: self.telegram_chat_id,
            telegram_password: text::opt_view(self.telegram_password),
        }
    }
}

/// The notification settings of a server that names none.
pub open spec fn default_notify() -> NotifyView {
    NotifyView {
        webhook_url: seq![],
        slack_url: seq![],
        routing: shipped_routing(),
        telegram_token: None,
        telegram_chat_id: None,
        telegram_password: None,
    }
}

impl Default for NotifyConfig {
    fn default() -> (r: Self)
        ensures
            r@ == default_notify(),
    {
        let r = NotifyConfig {
            webhook_url: String::new(),
            slack_url: String::new(),
            routing: default_routing(),
            telegram_token: None,
            telegram_chat_id: None,
            telegram_password: None,
        };
        assert(r@ =~= default_notify());
        r
    }
}

/// The channels of a severity; none for one that is not routed.
pub open spec fn channels(routing: Seq<(Seq<char>, Seq<Seq<char>>)>, severity: Seq<char>) -> Seq<
    Seq<char>,
> {
    match table::lookup(routing, severity) {
        Some(v) => v,
        None => seq![],
    }
}

/// Channels configured for a severity.
pub fn channels_for(cfg: &NotifyConfig, severity: &str) -> (r: Vec<String>)
    ensures
        text::views(r@) == channels(cfg.routing@, severity@),
{
    let name = text::owned(severity);
    match cfg.routing.get(&name) {
        Some(list) => text::copied(&list.items),
        None => {
            let r: Vec<String> = Vec::new();
            assert(text::views(r@) =~= seq![]);
            r
        },
    }
}

/// A time of day and a date as text: "YYYY-MM-DD HH:MM:SS".
pub open spec fn stamp(secs: int) -> Seq<char> {
    let (y, m, d) = civil::date_of(secs / 86400);
    let rem = secs % 86400;
    text::padded_int(y, 4) + "-"@ + text::padded_int(m, 2) + "-"@ + text::padded_int(d, 2) + " "@
        + text::padded_int(rem / 3600, 2) + ":"@ + text::padded_int(rem % 3600 / 60, 2) + ":"@
        + text::padded_int(rem % 60, 2)
}

/// A date and a time of day as text.
pub open spec fn shown(t: civil::DateTime) -> Seq<char> {
    text::padded_int(t.year, 4) + "-"@ + text::padded_int(t.month, 2) + "-"@ + text::padded_int(
        t.day,
        2,
    ) + " "@ + text::padded_int(t.hour, 2) + ":"@ + text::padded_int(t.minute, 2) + ":"@
        + text::padded_int(t.second, 2)
}

/// A time that was read is shown with the same date and time of day, whatever
/// its milliseconds. Before 1970 milliseconds are dropped towards a later
/// second, so there the law is of whole seconds.
pub proof fn law_times_are_shown_as_they_were_read(s: Seq<char>, ms: int)
    requires
        civil::gm_date(s) is Some,
        0 <= ms < 1000,
        civil::gm_date(s)->0 >= 0 || ms == 0,
    ensures
        civil::gm_time(s) is Some,
        stamp(civil::quot(civil::gm_date(s)->0 * 1000 + ms, 1000)) == shown(
            civil::gm_time(s)->0,
        ),
{
    let t = civil::gm_time(s)->0;
    let secs = civil::gm_date(s)->0;
    let days = civil::calendar_days(t.year, t.month, t.day);
    lemma_parts_of_a_day(days, t.hour, t.minute, t.second);
    lemma_milliseconds_are_dropped(secs, ms);
    civil::law_dates_round_trip(t.year, t.month, t.day);
}

/// The day, hour, minute and second of a number of seconds.
proof fn lemma_parts_of_a_day(days: int, hour: int, minute: int, second: int)
    requires
        0 <= hour <= 23,
        0 <= minute <= 59,
        0 <= second <= 59,
    ensures
        ({
            let secs = days * 86400 + hour * 3600 + minute * 60 + second;
            &&& secs / 86400 == days
            &&& secs % 86400 / 3600 == hour
            &&& secs % 86400 % 3600 / 60 == minute
            &&& secs % 86400 % 60 == second
        }),
{
    let rem = hour * 3600 + minute * 60 + second;
    let secs = days * 86400 + rem;
    assert(0 <= rem < 86400);
    assert(secs / 86400 == days && secs % 86400 == rem);
}

proof fn lemma_milliseconds_are_dropped(secs: int, ms: int)
    requires
        0 <= ms < 1000,
        secs >= 0 || ms == 0,
    ensures
        civil::quot(secs * 1000 + ms, 1000) == secs,
{
}

/// Timestamp → "YYYY-MM-DD HH:MM:SS" (UTC), by the civil calendar; parts of a
/// second are dropped, towards the epoch.
pub fn format_ts(ts: i64) -> (r: String)
    ensures
        r@ == stamp(civil::quot(ts as int, 1000)),
{
    let secs: i64 = ts / 1000;
    assert(secs == civil::quot(ts as int, 1000));
    let days: i64 = (if secs >= 0 {
        secs
    } else {
        secs - 86_399
    }) / 86_400;
    assert(days == secs as int / 86400);
    let rem: i64 = secs - days * 86_400;
    assert(rem == secs as int % 86400);
    let (y, m, d) = civil::civil_from_days(days);
    text::pad_i64(y, 4).concat("-").concat(text::pad_i64(m, 2).as_str()).concat("-").concat(
        text::pad_i64(d, 2).as_str(),
    ).concat(" ").concat(text::pad_i64(rem / 3600, 2).as_str()).concat(":").concat(
        text::pad_i64(rem % 3600 / 60, 2).as_str(),
    ).concat(":").concat(text::pad_i64(rem % 60, 2).as_str())
}

/// The address of an incident's page. The id stands in it as JSON.
pub open spec fn incident_url(incident: JsonView, ui_base_url: Seq<char>) -> Seq<char> {
    text::trim_end_char(ui_base_url, '/') + "/#/incidents/"@ + json::rendered(
        json::member(incident, "id"@),
    )
}

/// A member of an incident as a member of a payload.
pub open spec fn passed(name: Seq<char>, incident: JsonView, from: Seq<char>) -> Seq<char> {
    json::member_text(name, json::rendered(json::member(incident, from)))
}

/// A text as a member of a payload.
pub open spec fn text_member(name: Seq<char>, value: Seq<char>) -> Seq<char> {
    json::member_text(name, json::quote(value))
}

/// The members of the webhook payload, in the order of their names.
pub open spec fn webhook_members(incident: JsonView, ui_base_url: Seq<char>) -> Seq<Seq<char>> {
    seq![
        passed("actions"@, incident, "actions"@),
        passed("affected"@, incident, "affected"@),
        passed("cause"@, incident, "cause"@),
        passed("headline"@, incident, "headline"@),
        passed("host_id"@, incident, "host_id"@),
        passed("incident_id"@, incident, "id"@),
        passed("severity"@, incident, "severity"@),
        passed("status"@, incident, "status"@),
        passed("timeline"@, incident, "timeline"@),
        text_member("type"@, "watchtower.incident"@),
        text_member("url"@, incident_url(incident, ui_base_url)),
    ]
}

fn pass(name: &str, incident: &Json, from: &str) -> (r: String)
    ensures
        r@ == passed(name@, incident@, from@),
{
    json::quoted(name).concat(":").concat(incident.rendered_member(from).as_str())
}

fn quote_member(name: &str, value: &str) -> (r: String)
    ensures
        r@ == text_member(name@, value@),
{
    json::quoted(name).concat(":").concat(json::quoted(value).as_str())
}

fn object(members: &Vec<String>) -> (r: String)
    ensures
        r@ == json::object_text(text::views(members@)),
{
    text::owned("{").concat(text::joined(members, ",").as_str()).concat("}")
}

/// Generic webhook payload: the full incident anatomy.
pub fn webhook_payload(incident_json: &Json, ui_base_url: &str) -> (r: String)
    ensures
        r@ == json::object_text(webhook_members(incident_json@, ui_base_url@)),
{
    let url = text::trimmed_end_of(ui_base_url, '/').concat("/#/incidents/").concat(
        incident_json.rendered_member("id").as_str(),
    );
    let mut m: Vec<String> = Vec::new();
    m.push(pass("actions", incident_json, "actions"));
    m.push(pass("affected", incident_json, "affected"));
    m.push(pass("cause", incident_json, "cause"));
    m.push(pass("headline", incident_json, "headline"));
    m.push(pass("host_id", incident_json, "host_id"));
    m.push(pass("incident_id", incident_json, "id"));
    m.push(pass("severity", incident_json, "severity"));
    m.push(pass("status", incident_json, "status"));
    m.push(pass("timeline", incident_json, "timeline"));
    m.push(quote_member("type", "watchtower.incident"));
    m.push(quote_member("url", url.as_str()));
    assert(text::views(m@) =~= webhook_members(incident_json@, ui_base_url@));
    object(&m)
}

/// The colour of a severity.
pub open spec fn color(severity: Option<Seq<char>>) -> Seq<char> {
    if severity == Some("Critical"@) {
        "danger"@
    } else if severity == Some("Warning"@) {
        "warning"@
    } else {
        "good"@
    }
}

/// The number that a value is; zero when it is none.
pub open spec fn number_or_zero(j: JsonView) -> int {
    match j {
        JsonView::Number(n) => n,
        _ => 0,
    }
}

/// The line of an event of the timeline.
pub open spec fn timeline_line(e: JsonView) -> Seq<char> {
    "- "@ + stamp(civil::quot(number_or_zero(json::member(e, "ts"@)), 1000)) + " — "@
        + json::text_or_empty(json::member(e, "summary"@)) + " ("@ + json::text_or_empty(
        json::member(e, "kind"@),
    ) + ")"@
}

/// The lines of a timeline; none when it is no list.
pub open spec fn timeline_lines(timeline: JsonView) -> Seq<Seq<char>> {
    match timeline {
        JsonView::List(v) => v.map_values(|e: JsonView| timeline_line(e)),
        _ => seq![],
    }
}

/// The members of the slack attachment, in the order of their names.
pub open spec fn slack_members(incident: JsonView, ui_base_url: Seq<char>) -> Seq<Seq<char>> {
    let severity = json::member(incident, "severity"@);
    let headline = json::text_or_empty(json::member(incident, "headline"@));
    let cause = json::text_or_empty(json::member(incident, "cause"@));
    let lines = timeline_lines(json::member(incident, "timeline"@));
    seq![
        text_member("color"@, color(json::as_text(severity))),
        text_member("footer"@, "watchtower · "@ + text::trim_end_char(ui_base_url, '/')),
        text_member("text"@, headline + "\n"@ + cause + "\n"@ + text::join(lines, "\n"@)),
        text_member("title"@, "["@ + json::text_or_empty(severity) + "] "@ + headline),
    ]
}

/// The slack payload: one attachment.
pub open spec fn slack_text(incident: JsonView, ui_base_url: Seq<char>) -> Seq<char> {
    json::object_text(
        seq![
            json::member_text(
                "attachments"@,
                json::list_text(seq![json::object_text(slack_members(incident, ui_base_url))]),
            ),
        ],
    )
}

fn text_in(j: &Json, name: &str) -> (r: String)
    ensures
        r@ == json::text_or_empty(json::member(j@, name@)),
{
    match j.text_of(name) {
        Some(t) => text::owned(t),
        None => {
            let e = String::new();
            assert(e@ =~= seq![]);
            e
        },
    }
}

fn line_of(e: &Json) -> (r: String)
    ensures
        r@ == timeline_line(e@),
{
    let ts: i64 = match e.get("ts") {
        Some(Json::Number(n)) => *n,
        _ => 0,
    };
    text::owned("- ").concat(format_ts(ts).as_str()).concat(" — ").concat(
        text_in(e, "summary").as_str(),
    ).concat(" (").concat(text_in(e, "kind").as_str()).concat(")")
}

fn lines_of(incident: &Json) -> (r: Vec<String>)
    ensures
        text::views(r@) == timeline_lines(json::member(incident@, "timeline"@)),
{
    let mut out: Vec<String> = Vec::new();
    match incident.get("timeline") {
        Some(Json::List(v)) => {
            let ghost all = json::member(incident@, "timeline"@)->List_0;
            let mut i: usize = 0;
            while i < v.len()
                invariant
                    i <= v@.len(),
                    all.len() == v@.len(),
                    forall|k: int| 0 <= k < all.len() ==> #[trigger] all[k] == v@[k]@,
                    out@.len() == i,
                    forall|k: int| 0 <= k < i ==> (#[trigger] out@[k])@ == timeline_line(all[k]),
                decreases v@.len() - i,
            {
                let line = line_of(&v[i]);
                out.push(line);
                i = i + 1;
            }
            assert(text::views(out@) =~= all.map_values(|e: JsonView| timeline_line(e)));
        },
        _ => {
            assert(text::views(out@) =~= seq![]);
        },
    }
    out
}

/// Slack incoming-webhook payload (legacy attachments API).
pub fn slack_payload(incident_json: &Json, ui_base_url: &str) -> (r: String)
    ensures
        r@ == slack_text(incident_json@, ui_base_url@),
{
    let color = match incident_json.text_of("severity") {
        Some(s) => if text::same(s, "Critical") {
            "danger"
        } else if text::same(s, "Warning") {
            "warning"
        } else {
            "good"
        },
        None => "good",
    };
    let severity = text_in(incident_json, "severity");
    let headline = text_in(incident_json, "headline");
    let cause = text_in(incident_json, "cause");
    let lines = lines_of(incident_json);
    let body = text::owned(headline.as_str()).concat("\n").concat(cause.as_str()).concat(
        "\n",
    ).concat(text::joined(&lines, "\n").as_str());
    let title = text::owned("[").concat(severity.as_str()).concat("] ").concat(headline.as_str());
    let footer = text::owned("watchtower · ").concat(
        text::trimmed_end_of(ui_base_url, '/').as_str(),
    );
    let mut m: Vec<String> = Vec::new();
    m.push(quote_member("color", color));
    m.push(quote_member("footer", footer.as_str()));
    m.push(quote_member("text", body.as_str()));
    m.push(quote_member("title", title.as_str()));
    assert(text::views(m@) =~= slack_members(incident_json@, ui_base_url@));
    let mut items: Vec<String> = Vec::new();
    items.push(object(&m));
    assert(text::views(items@) =~= seq![
        json::object_text(slack_members(incident_json@, ui_base_url@)),
    ]);
    let list = text::owned("[").concat(text::joined(&items, ",").as_str()).concat("]");
    let mut outer: Vec<String> = Vec::new();
    outer.push(json::quoted("attachments").concat(":").concat(list.as_str()));
    assert(text::views(outer@) =~= seq![
        json::member_text(
            "attachments"@,
            json::list_text(
                seq![json::object_text(slack_members(incident_json@, ui_base_url@))],
            ),
        ),
    ]);
    object(&outer)
}

/// Whether a delivery was taken: only a 2xx response is.
pub fn delivery_result(status: u16) -> (r: Result<(), String>)
    ensures
        match r {
            Ok(_) => 200 <= status < 300,
            Err(e) => !(200 <= status < 300) && e@ == "http "@ + text::dec(status as nat),
        },
{
    if status >= 200 && status < 300 {
        Ok(())
    } else {
        Err(text::owned("http ").concat(text::dec_u64(status as u64).as_str()))
    }
}

/// A payload to post to a URL, for a channel.
#[derive(Debug)]
pub struct Delivery {
    pub channel: String,
    pub url: String,
    pub payload: String,
}

/// What a `Delivery` says.
#[verifier::ext_equal]
pub struct DeliveryView {
    pub channel: Seq<char>,
    pub url: Seq<char>,
    pub payload: Seq<char>,
}

impl View for Delivery {
    type V = DeliveryView;

    open spec fn view(&self) -> DeliveryView {
        DeliveryView { channel: self.channel@, url: self.url@, payload: self.payload@ }
    }
}

/// What each delivery of a list says.
pub open spec fn delivery_views(v: Seq<Delivery>) -> Seq<DeliveryView> {
    v.map_values(|d: Delivery| d@)
}

/// What goes out on a channel: nothing on one that is unknown or has no URL.
pub open spec fn delivery_on(
    channel: Seq<char>,
    cfg: NotifyView,
    incident: JsonView,
    ui_base_url: Seq<char>,
) -> Option<DeliveryView> {
    if channel == "webhook"@ {
        if cfg.webhook_url.len() == 0 {
            None
        } else {
            Some(
                DeliveryView {
                    channel,
                    url: cfg.webhook_url,
                    payload: json::object_text(webhook_members(incident, ui_base_url)),
                },
            )
        }
    } else if channel == "slack"@ {
        if cfg.slack_url.len() == 0 {
            None
        } else {
            Some(
                DeliveryView {
                    channel,
                    url: cfg.slack_url,
                    payload: slack_text(incident, ui_base_url),
                },
            )
        }
    } else {
        None
    }
}

/// The severity by which an incident is routed.
pub open spec fn routed_severity(incident: JsonView) -> Seq<char> {
    match json::as_text(json::member(incident, "severity"@)) {
        Some(s) => s,
        None => "Info"@,
    }
}

/// Everything that goes out for an incident, in the order of the channels.
pub open spec fn deliveries(cfg: NotifyView, incident: JsonView, ui_base_url: Seq<char>) -> Seq<
    DeliveryView,
> {
    seqs::picked(
        channels(cfg.routing, routed_severity(incident)),
        |c: Seq<char>| delivery_on(c, cfg, incident, ui_base_url),
    )
}

/// What goes out goes to a configured URL of a channel that the incident's
/// severity is routed to.
pub proof fn law_nothing_goes_out_unrouted(
    cfg: NotifyView,
    incident: JsonView,
    ui_base_url: Seq<char>,
    d: DeliveryView,
)
    requires
        deliveries(cfg, incident, ui_base_url).contains(d),
    ensures
        channels(cfg.routing, routed_severity(incident)).contains(d.channel),
        d.url.len() > 0,
        d.url == cfg.webhook_url || d.url == cfg.slack_url,
{
    let f = |c: Seq<char>| delivery_on(c, cfg, incident, ui_base_url);
    let all = channels(cfg.routing, routed_severity(incident));
    assert(deliveries(cfg, incident, ui_base_url) == seqs::picked(all, f));
    seqs::lemma_picked(all, f, d);
    let i = choose|i: int| 0 <= i < all.len() && f(#[trigger] all[i]) == Some(d);
    assert(delivery_on(all[i], cfg, incident, ui_base_url) == Some(d));
    assert(all[i] == d.channel);
}

/// An incident whose own severity is routed to a channel with a URL goes out
/// on it, once for each time the channel is listed, and on no other channel.
/// An incident whose severity is no text is routed as "Info".
pub proof fn law_routed_channels_are_told(
    cfg: NotifyView,
    incident: JsonView,
    ui_base_url: Seq<char>,
    severity: Seq<char>,
    list: Seq<Seq<char>>,
)
    requires
        json::member(incident, "severity"@) == JsonView::Text(severity) || (!(json::member(
            incident,
            "severity"@,
        ) is Text) && severity == "Info"@),
        table::lookup(cfg.routing, severity) == Some(list),
    ensures
        list.contains("slack"@) && cfg.slack_url.len() > 0 ==> deliveries(
            cfg,
            incident,
            ui_base_url,
        ).contains(
            (DeliveryView {
                channel: "slack"@,
                url: cfg.slack_url,
                payload: slack_text(incident, ui_base_url),
            }),
        ),
        list.contains("webhook"@) && cfg.webhook_url.len() > 0 ==> deliveries(
            cfg,
            incident,
            ui_base_url,
        ).contains(
            (DeliveryView {
                channel: "webhook"@,
                url: cfg.webhook_url,
                payload: json::object_text(webhook_members(incident, ui_base_url)),
            }),
        ),
        forall|d: DeliveryView| #[trigger]
            deliveries(cfg, incident, ui_base_url).contains(d) ==> list.contains(d.channel) && ((
            d.channel == "slack"@ && d.url == cfg.slack_url) || (d.channel == "webhook"@ && d.url
                == cfg.webhook_url)) && d.url.len() > 0,
        deliveries(cfg, incident, ui_base_url).len() == Set::new(
            |i: int|
                0 <= i < list.len() && ((list[i] == "slack"@ && cfg.slack_url.len() > 0) || (
                list[i] == "webhook"@ && cfg.webhook_url.len() > 0)),
        ).len(),
{
    let f = |c: Seq<char>| delivery_on(c, cfg, incident, ui_base_url);
    assert(channels(cfg.routing, routed_severity(incident)) == list);
    assert(deliveries(cfg, incident, ui_base_url) == seqs::picked(list, f));
    lemma_words_differ();
    if list.contains("slack"@) && cfg.slack_url.len() > 0 {
        let d = DeliveryView {
            channel: "slack"@,
            url: cfg.slack_url,
            payload: slack_text(incident, ui_base_url),
        };
        let i = choose|i: int| 0 <= i < list.len() && list[i] == "slack"@;
        assert(f(list[i]) == Some(d));
        seqs::lemma_picked(list, f, d);
    }
    if list.contains("webhook"@) && cfg.webhook_url.len() > 0 {
        let d = DeliveryView {
            channel: "webhook"@,
            url: cfg.webhook_url,
            payload: json::object_text(webhook_members(incident, ui_base_url)),
        };
        let i = choose|i: int| 0 <= i < list.len() && list[i] == "webhook"@;
        assert(f(list[i]) == Some(d));
        seqs::lemma_picked(list, f, d);
    }
    assert forall|d: DeliveryView| #[trigger]
        deliveries(cfg, incident, ui_base_url).contains(d) implies list.contains(d.channel) && ((
    d.channel == "slack"@ && d.url == cfg.slack_url) || (d.channel == "webhook"@ && d.url
        == cfg.webhook_url)) && d.url.len() > 0 by {
        seqs::lemma_picked(list, f, d);
        let i = choose|i: int| 0 <= i < list.len() && f(#[trigger] list[i]) == Some(d);
        assert(delivery_on(list[i], cfg, incident, ui_base_url) == Some(d));
    }
    let told = |c: Seq<char>|
        (c == "slack"@ && cfg.slack_url.len() > 0) || (c == "webhook"@ && cfg.webhook_url.len()
            > 0);
    seqs::lemma_picked_counts(list, f, told);
    assert(Set::new(|i: int| 0 <= i < list.len() && told(list[i])) =~= Set::new(
        |i: int|
            0 <= i < list.len() && ((list[i] == "slack"@ && cfg.slack_url.len() > 0) || (list[i]
                == "webhook"@ && cfg.webhook_url.len() > 0)),
    ));
}

/// An incident whose severity is routed nowhere is told to no one.
pub proof fn law_unrouted_severities_are_silent(
    cfg: NotifyView,
    incident: JsonView,
    ui_base_url: Seq<char>,
    severity: Seq<char>,
)
    requires
        json::member(incident, "severity"@) == JsonView::Text(severity),
        forall|i: int| 0 <= i < cfg.routing.len() ==> (#[trigger] cfg.routing[i]).0 != severity,
    ensures
        deliveries(cfg, incident, ui_base_url).len() == 0,
{
    if table::lookup(cfg.routing, severity) is Some {
        let i = table::lemma_lookup_index(cfg.routing, severity);
        assert(cfg.routing[i].0 != severity);
    }
}

/// With the default routing and both URLs set, a critical incident goes to the
/// webhook and to slack, a warning to slack alone, and any other to no one.
pub proof fn law_default_routing(cfg: NotifyView, incident: JsonView, ui_base_url: Seq<char>)
    requires
        cfg.routing == default_notify().routing,
        cfg.webhook_url.len() > 0,
        cfg.slack_url.len() > 0,
    ensures
        ({
            let r = deliveries(cfg, incident, ui_base_url);
            let severity = json::member(incident, "severity"@);
            &&& severity == JsonView::Text("Critical"@) ==> r.len() == 2 && r[0].channel
                == "webhook"@ && r[0].url == cfg.webhook_url && r[1].channel == "slack"@ && r[1].url
                == cfg.slack_url
            &&& severity == JsonView::Text("Warning"@) ==> r.len() == 1 && r[0].channel
                == "slack"@ && r[0].url == cfg.slack_url
            &&& severity != JsonView::Text("Critical"@) && severity != JsonView::Text("Warning"@)
                ==> r.len() == 0
        }),
{
    lemma_words_differ();
    let f = |c: Seq<char>| delivery_on(c, cfg, incident, ui_base_url);
    let routing = shipped_routing();
    let two = seq!["webhook"@, "slack"@];
    let one = seq!["slack"@];
    assert(routing.skip(1)[0] == routing[1]);
    assert(routing.skip(1).skip(1)[0] == routing[2]);
    assert(routing.skip(1).skip(1).skip(1).len() == 0);
    reveal_with_fuel(table::lookup, 5);
    reveal_with_fuel(seqs::picked, 3);
    assert(two.drop_last() =~= seq!["webhook"@]);
    assert(one.drop_last() =~= seq![]);
    assert(two.drop_last().drop_last() =~= seq![]);
    let list = channels(cfg.routing, routed_severity(incident));
    assert(deliveries(cfg, incident, ui_base_url) == seqs::picked(list, f));
    let severity = json::member(incident, "severity"@);
    if severity == JsonView::Text("Critical"@) {
        assert(list == two);
        assert(f("slack"@) is Some && f("webhook"@) is Some);
        assert(seqs::picked(list, f) =~= seq![f("webhook"@)->0, f("slack"@)->0]);
    } else if severity == JsonView::Text("Warning"@) {
        assert(list == one);
        assert(seqs::picked(list, f) =~= seq![f("slack"@)->0]);
    } else {
        assert(list.len() == 0);
    }
}

/// The names of channels and severities differ.
proof fn lemma_words_differ()
    ensures
        "slack"@ != "webhook"@,
        "Critical"@ != "Warning"@,
        "Critical"@ != "Info"@,
        "Warning"@ != "Info"@,
{
    reveal_strlit("slack");
    reveal_strlit("webhook");
    reveal_strlit("Critical");
    reveal_strlit("Warning");
    reveal_strlit("Info");
    assert("slack"@.len() == 5 && "webhook"@.len() == 7);
    assert("Critical"@.len() == 8 && "Warning"@.len() == 7 && "Info"@.len() == 4);
}

fn is_empty(s: &str) -> (r: bool)
    ensures
        r == (s@.len() == 0),
{
    proof {
        reveal_strlit("");
        assert(s@.len() == 0 ==> s@ =~= ""@);
    }
    text::same(s, "")
}

fn deliver_on(channel: &str, cfg: &NotifyConfig, incident: &Json, ui_base_url: &str) -> (r: Option<
    Delivery,
>)
    ensures
        match r {
            Some(d) => delivery_on(channel@, cfg@, incident@, ui_base_url@) == Some(d@),
            None => delivery_on(channel@, cfg@, incident@, ui_base_url@) is None,
        },
{
    if text::same(channel, "webhook") {
        if is_empty(cfg.webhook_url.as_str()) {
            None
        } else {
            Some(
                Delivery {
                    channel: text::owned(channel),
                    url: cfg.webhook_url.clone(),
                    payload: webhook_payload(incident, ui_base_url),
                },
            )
        }
    } else if text::same(channel, "slack") {
        if is_empty(cfg.slack_url.as_str()) {
            None
        } else {
            Some(
                Delivery {
                    channel: text::owned(channel),
                    url: cfg.slack_url.clone(),
                    payload: slack_payload(incident, ui_base_url),
                },
            )
        }
    } else {
        None
    }
}

/// What to send for one incident: a payload for each channel configured for
/// its severity.
pub fn notify_incident(cfg: &NotifyConfig, incident_json: &Json, ui_base_url: &str) -> (r: Vec<
    Delivery,
>)
    ensures
        delivery_views(r@) == deliveries(cfg@, incident_json@, ui_base_url@),
{
    let severity = match incident_json.text_of("severity") {
        Some(s) => s,
        None => "Info",
    };
    let names = channels_for(cfg, severity);
    let ghost all = text::views(names@);
    let ghost (c, j, u) = (cfg@, incident_json@, ui_base_url@);
    let ghost f = |n: Seq<char>| delivery_on(n, c, j, u);
    let mut out: Vec<Delivery> = Vec::new();
    let mut i: usize = 0;
    assert(delivery_views(out@) =~= seqs::picked(all.take(0), f));
    while i < names.len()
        invariant
            i <= names@.len(),
            all == text::views(names@),
            c == cfg@,
            j == incident_json@,
            u == ui_base_url@,
            f == (|n: Seq<char>| delivery_on(n, c, j, u)),
            delivery_views(out@) == seqs::picked(all.take(i as int), f),
        decreases names@.len() - i,
    {
        proof {
            seqs::lemma_take_step(all, i as int);
            assert(all[i as int] == names@[i as int]@);
        }
        match deliver_on(names[i].as_str(), cfg, incident_json, ui_base_url) {
            Some(d) => {
                let ghost before = delivery_views(out@);
                let ghost dv = d@;
                out.push(d);
                assert(delivery_views(out@) =~= before.push(dv));
            },
            None => {},
        }
        i = i + 1;
    }
    assert(all.take(names@.len() as int) =~= all);
    out
}

/// In-memory retry queue: (url, payload, attempts). try_take POPS; retry()
/// re-queues or drops at the cap. A server restart loses the queue.
pub struct RetryQueue {
    pub max_attempts: u32,
    pub items: VecDeque<(String, String, u32)>,
}

/// What an item of the queue says.
pub open spec fn item_view(i: (String, String, u32)) -> (Seq<char>, Seq<char>, u32) {
    (i.0@, i.1@, i.2)
}

impl View for RetryQueue {
    type V = Seq<(Seq<char>, Seq<char>, u32)>;

    open spec fn view(&self) -> Seq<(Seq<char>, Seq<char>, u32)> {
        self.items@.map_values(|i: (String, String, u32)| item_view(i))
    }
}

/// The queue after a failed attempt: the item behind the others, unless it
/// has had all its attempts.
pub open spec fn requeued(
    items: Seq<(Seq<char>, Seq<char>, u32)>,
    item: (Seq<char>, Seq<char>, u32),
    max_attempts: u32,
) -> Seq<(Seq<char>, Seq<char>, u32)> {
    if item.2 >= max_attempts {
        items
    } else {
        items.push(item)
    }
}

/// How many times an item that always fails is still tried, once it has been
/// taken with a number of attempts.
pub open spec fn tries_left(attempts: nat, max_attempts: nat) -> nat
    decreases max_attempts - attempts,
{
    if attempts + 1 >= max_attempts {
        1
    } else {
        1 + tries_left(attempts + 1, max_attempts)
    }
}

/// An item that always fails is tried `max_attempts` times, and once where
/// that is none.
pub proof fn law_attempts_are_bounded(attempts: nat, max_attempts: nat)
    requires
        attempts < max_attempts,
    ensures
        tries_left(attempts, max_attempts) == max_attempts - attempts,
        tries_left(0, 0) == 1,
    decreases max_attempts - attempts,
{
    if attempts + 1 < max_attempts {
        law_attempts_are_bounded(attempts + 1, max_attempts);
    }
}

impl RetryQueue {
    /// An empty queue.
    pub fn new(max_attempts: u32) -> (r: Self)
        ensures
            r.max_attempts == max_attempts,
            r@ == Seq::<(Seq<char>, Seq<char>, u32)>::empty(),
    {
        let r = RetryQueue { max_attempts, items: VecDeque::new() };
        assert(r@ =~= Seq::<(Seq<char>, Seq<char>, u32)>::empty());
        r
    }

    /// Queue an undelivered payload.
    pub fn push(&mut self, url: String, payload: String)
        ensures
            final(self)@ == old(self)@.push((url@, payload@, 0)),
            final(self).max_attempts == old(self).max_attempts,
    {
        let ghost before = self@;
        self.items.push_back((url, payload, 0));
        assert(self@ =~= before.push((url@, payload@, 0)));
    }

    /// Next item to retry with its attempt count. None when empty.
    pub fn try_take(&mut self) -> (r: Option<(String, String, u32)>)
        ensures
            final(self).max_attempts == old(self).max_attempts,
            match r {
                Some(i) => old(self)@.len() > 0 && item_view(i) == old(self)@[0] && final(self)@
                    == old(self)@.skip(1),
                None => old(self)@.len() == 0 && final(self)@ == old(self)@,
            },
    {
        let ghost before = self@;
        let r = self.items.pop_front();
        proof {
            if before.len() > 0 {
                assert(self@ =~= before.skip(1));
            } else {
                assert(self@ =~= before);
            }
        }
        r
    }

    /// Re-queue for another attempt (call on delivery failure); drops at cap.
    pub fn retry(&mut self, url: String, payload: String, attempts: u32)
        ensures
            final(self)@ == requeued(
                old(self)@,
                (url@, payload@, attempts),
                old(self).max_attempts,
            ),
            final(self).max_attempts == old(self).max_attempts,
    {
        if attempts < self.max_attempts {
            let ghost before = self@;
            self.items.push_back((url, payload, attempts));
            assert(self@ =~= before.push((url@, payload@, attempts)));
        }
    }
}

/// How many incidents may wait for the notifier; on overflow one is dropped
/// loudly.
pub const NOTIFY_QUEUE_CAP: usize = 64;

/// Whether an incident that was last notified at some time may be notified
/// again: not before the interval is over.
pub open spec fn may_notify(last: Option<int>, now: int, min_interval_secs: int) -> bool {
    match last {
        Some(t) => now - t >= min_interval_secs * 1000,
        None => true,
    }
}

/// Whether it is time to notify of an incident again.
pub fn notification_due(last: Option<i64>, now: i64, min_interval_secs: i64) -> (r: bool)
    ensures
        r == may_notify(
            match last {
                Some(t) => Some(t as int),
                None => None,
            },
            now as int,
            min_interval_secs as int,
        ),
{
    match last {
        Some(t) => now as i128 - t as i128 >= min_interval_secs as i128 * 1000,
        None => true,
    }
}

/// Notifications of one incident, each sent when it was due after the one
/// before, are at least the interval apart: at most one falls into any
/// interval.
pub proof fn law_notifications_are_throttled(
    times: Seq<int>,
    min_interval_secs: int,
    i: int,
    j: int,
)
    requires
        min_interval_secs >= 0,
        forall|k: int|
            1 <= k < times.len() ==> #[trigger] may_notify(
                Some(times[k - 1]),
                times[k],
                min_interval_secs,
            ),
        0 <= i < j < times.len(),
    ensures
        times[j] - times[i] >= min_interval_secs * 1000,
    decreases j - i,
{
    assert(may_notify(Some(times[j - 1]), times[j], min_interval_secs));
    if i < j - 1 {
        law_notifications_are_throttled(times, min_interval_secs, i, j - 1);
    }
}

/// The webhook is told the whole incident: each part stands in the payload under
/// its name, with what the incident holds under it.
pub proof fn law_webhooks_are_told_everything(incident: JsonView, ui_base_url: Seq<char>)
    ensures
        ({
            let payload = json::object_text(webhook_members(incident, ui_base_url));
            let says = |name: Seq<char>, from: Seq<char>|
                text::holds(
                    payload,
                    json::quote(name) + ":"@ + json::rendered(json::member(incident, from)),
                );
            &&& says("incident_id"@, "id"@)
            &&& says("severity"@, "severity"@)
            &&& says("status"@, "status"@)
            &&& says("host_id"@, "host_id"@)
            &&& says("headline"@, "headline"@)
            &&& says("cause"@, "cause"@)
            &&& says("actions"@, "actions"@)
            &&& says("affected"@, "affected"@)
            &&& says("timeline"@, "timeline"@)
            &&& text::holds(
                payload,
                json::quote("type"@) + ":"@ + json::quote("watchtower.incident"@),
            )
        }),
        ({
            let payload = json::object_text(webhook_members(incident, ui_base_url));
            ui_base_url.len() > 0 && ui_base_url.last() != '/' ==> text::holds(
                payload,
                json::quote("url"@) + ":"@ + json::quote(
                    ui_base_url + "/#/incidents/"@ + json::rendered(json::member(incident, "id"@)),
                ),
            )
        }),
{
    let m = webhook_members(incident, ui_base_url);
    let payload = json::object_text(m);
    assert forall|i: int| 0 <= i < m.len() implies text::holds(payload, #[trigger] m[i]) by {
        text::law_joined_texts_are_held(m, ","@, i);
        text::lemma_holds_within("{"@, text::join(m, ","@), "}"@, m[i]);
    }
    assert(text::holds(payload, m[0]) && text::holds(payload, m[1]) && text::holds(payload, m[2])
        && text::holds(payload, m[3]) && text::holds(payload, m[4]) && text::holds(payload, m[5])
        && text::holds(payload, m[6]) && text::holds(payload, m[7]) && text::holds(payload, m[8])
        && text::holds(payload, m[9]) && text::holds(payload, m[10]));
}

/// Slack is told the severity by colour and in the title, and in the text the
/// headline, the cause and a line of each event, in order, with its time, what
/// happened and its kind.
pub proof fn law_slack_is_told_the_story(
    incident: JsonView,
    ui_base_url: Seq<char>,
    severity: Seq<char>,
    headline: Seq<char>,
    cause: Seq<char>,
    events: Seq<JsonView>,
    lines: Seq<Seq<char>>,
)
    requires
        json::member(incident, "severity"@) == JsonView::Text(severity),
        json::member(incident, "headline"@) == JsonView::Text(headline),
        json::member(incident, "cause"@) == JsonView::Text(cause),
        json::member(incident, "timeline"@) == JsonView::List(events),
        lines.len() == events.len(),
        forall|i: int|
            0 <= i < events.len() ==> (json::member(#[trigger] events[i], "ts"@) matches JsonView::Number(
                t,
            ) && t >= 0 && (json::member(events[i], "summary"@) matches JsonView::Text(what) && (
            json::member(events[i], "kind"@) matches JsonView::Text(kind) && lines[i] == "- "@
                + stamp(t / 1000) + " — "@ + what + " ("@ + kind + ")"@))),
    ensures
        ({
            let payload = slack_text(incident, ui_base_url);
            let colour = if severity == "Critical"@ {
                "danger"@
            } else if severity == "Warning"@ {
                "warning"@
            } else {
                "good"@
            };
            &&& text::holds(payload, json::quote("color"@) + ":"@ + json::quote(colour))
            &&& text::holds(
                payload,
                json::quote("title"@) + ":"@ + json::quote("["@ + severity + "] "@ + headline),
            )
            &&& text::holds(
                payload,
                json::quote("text"@) + ":"@ + json::quote(
                    headline + "\n"@ + cause + "\n"@ + text::join(lines, "\n"@),
                ),
            )
        }),
{
    let m = slack_members(incident, ui_base_url);
    let inner = json::object_text(m);
    let listed = json::list_text(seq![inner]);
    let outer = seq![json::member_text("attachments"@, listed)];
    let payload = slack_text(incident, ui_base_url);
    assert(timeline_lines(JsonView::List(events)) =~= lines) by {
        assert forall|i: int| 0 <= i < events.len() implies timeline_line(events[i]) == lines[i] by {
            let t = json::member(events[i], "ts"@)->Number_0;
            assert(civil::quot(t, 1000) == t / 1000);
        }
    }
    assert forall|i: int| 0 <= i < m.len() implies text::holds(payload, #[trigger] m[i]) by {
        text::law_joined_texts_are_held(m, ","@, i);
        text::lemma_holds_within("{"@, text::join(m, ","@), "}"@, m[i]);
        assert(text::join(seq![inner], ","@) == inner);
        text::lemma_holds_within("["@, inner, "]"@, m[i]);
        let none = Seq::<char>::empty();
        let lead = json::quote("attachments"@) + ":"@;
        text::lemma_holds_within(lead, listed, none, m[i]);
        assert(lead + listed + none =~= outer[0]);
        assert(text::join(outer, ","@) == outer[0]);
        text::lemma_holds_within("{"@, outer[0], "}"@, m[i]);
    }
    assert(text::holds(payload, m[0]) && text::holds(payload, m[2]) && text::holds(payload, m[3]));
}

/// What was queued first is tried first, and what failed is tried again behind
/// the others, with one more attempt, until it has had them all.
pub proof fn law_retries_take_turns(
    items: Seq<(Seq<char>, Seq<char>, u32)>,
    item: (Seq<char>, Seq<char>, u32),
    max_attempts: u32,
)
    ensures
        item.2 < max_attempts ==> requeued(items, item, max_attempts).len() == items.len() + 1
            && requeued(items, item, max_attempts).last() == item && requeued(
            items,
            item,
            max_attempts,
        ).drop_last() == items,
        item.2 >= max_attempts ==> requeued(items, item, max_attempts) == items,
{
    if item.2 < max_attempts {
        assert(requeued(items, item, max_attempts).drop_last() =~= items);
    }
}

/// An incident may be told of at first, and again once the interval is over.
pub proof fn law_notifications_come_again(last: int, now: int, min_interval_secs: int)
    ensures
        may_notify(None, now, min_interval_secs),
        may_notify(Some(last), now, min_interval_secs) <==> now >= last + min_interval_secs * 1000,
{
}

} // verus!
