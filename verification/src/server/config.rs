//! Server configuration: defaults, merging of a configuration file, and
//! overrides from the environment.

use vstd::prelude::*;

use crate::server::correlation;
use crate::server::correlation::{Rule, RuleView};
use crate::server::notify;
use crate::server::notify::{NotifyConfig, NotifyView};
use crate::server::probes::ProbeConfig;
use crate::table::Table;
use crate::text;

verus! {

/// A configuration file as it was read. Accepts both `[[probe]]` and
/// `[[probes]]` keys, and both `[[rule]]` and `[[rules]]`, so older docs keep
/// working and no config is silently dropped.
pub struct ServerConfigToml {
    pub listen: Option<String>,
    pub db_url: Option<String>,
    pub auth_token: Option<String>,
    pub host_tokens: Option<Table<String, String>>,
    pub probe: Vec<ProbeConfig>,
    pub probes: Vec<ProbeConfig>,
    pub scan_interval_secs: Option<i64>,
    pub notify_min_interval_secs: Option<i64>,
    pub rule: Vec<Rule>,
    pub rules: Option<Vec<Rule>>,
    pub notify: Option<NotifyConfig>,
    pub ui_base_url: Option<String>,
    pub watchdog_heartbeat_grace_secs: Option<i64>,
    pub watchdog_queue_threshold: Option<i64>,
}

/// Server configuration.
pub struct ServerConfig {
    /// Socket address to listen on. Default localhost only: the UI has no
    /// auth, so do not expose it to the network.
    pub listen: String,
    /// Database URL. "sqlite::memory:" works only for tests.
    pub db_url: String,
    /// Shared bearer token agents must present.
    pub auth_token: String,
    /// Per-host bearer tokens: presenting one attributes the agent to that
    /// host (its payload host_id is overridden: spoofing requires the token).
    pub host_tokens: Table<String, String>,
    /// External endpoints to probe for reachability.
    pub probes: Vec<ProbeConfig>,
    /// Correlation scan interval (seconds).
    pub scan_interval_secs: i64,
    /// Minimum seconds between notifications per incident (absorb re-notify
    /// throttle).
    pub notify_min_interval_secs: i64,
    /// Correlation rules; entries override built-in defaults by id.
    pub rules: Vec<Rule>,
    /// Notification channels and per-severity routing.
    pub notify: NotifyConfig,
    /// UI base URL for links in notifications.
    pub ui_base_url: String,
    /// Seconds a host may go without a heartbeat before the watchdog fires.
    pub watchdog_heartbeat_grace_secs: i64,
    /// Spool queue length that triggers AgentQueueGrowing.
    pub watchdog_queue_threshold: i64,
}

/// What a `ServerConfig` says.
#[verifier::ext_equal]
pub struct ServerView {
    pub listen: Seq<char>,
    pub db_url: Seq<char>,
    pub auth_token: Seq<char>,
    pub host_tokens: Seq<(Seq<char>, Seq<char>)>,
    pub probes: Seq<ProbeConfig>,
    pub scan_interval_secs: i64,
    pub notify_min_interval_secs: i64,
    pub rules: Seq<RuleView>,
    pub notify: NotifyView,
    pub ui_base_url: Seq<char>,
    pub watchdog_heartbeat_grace_secs: i64,
    pub watchdog_queue_threshold: i64,
}

impl View for ServerConfig {
    type V = ServerView;

    open spec fn view(&self) -> ServerView {
        ServerView {
            listen: self.listen@,
            db_url: self.db_url@,
            auth_token: self.auth_token@,
            host_tokens: self.host_tokens@,
            probes: self.probes@,
            scan_interval_secs: self.scan_interval_secs,
            notify_min_interval_secs: self.notify_min_interval_secs,
            rules: correlation::rule_views(self.rules@),
            notify: self.notify@,
            ui_base_url: self.ui_base_url@,
            watchdog_heartbeat_grace_secs: self.watchdog_heartbeat_grace_secs,
            watchdog_queue_threshold: self.watchdog_queue_threshold,
        }
    }
}

/// The configuration of a server without a file.
pub open spec fn default_server() -> ServerView {
    ServerView {
        listen: "127.0.0.1:8787"@,
        db_url: "sqlite:///var/lib/watchtower/watchtower.db"@,
        auth_token: seq![],
        host_tokens: seq![],
        probes: seq![],
        scan_interval_secs: 10,
        notify_min_interval_secs: 60,
        rules: seq![],
        notify: notify::default_notify(),
        ui_base_url: "http://127.0.0.1:8787"@,
        watchdog_heartbeat_grace_secs: 90,
        watchdog_queue_threshold: 100,
    }
}

impl Default for ServerConfig {
    fn default() -> (r: Self)
        ensures
            r@ == default_server(),
    {
        let r = ServerConfig {
            listen: text::owned("127.0.0.1:8787"),
            db_url: text::owned("sqlite:///var/lib/watchtower/watchtower.db"),
            auth_token: String::new(),
            host_tokens: Table::new(),
            probes: Vec::new(),
            scan_interval_secs: 10,
            notify_min_interval_secs: 60,
            rules: Vec::new(),
            notify: NotifyConfig::default(),
            ui_base_url: text::owned("http://127.0.0.1:8787"),
            watchdog_heartbeat_grace_secs: 90,
            watchdog_queue_threshold: 100,
        };
        assert(r@ =~= default_server());
        r
    }
}

/// A text of the file, or the default.
pub open spec fn text_or(o: Option<String>, default: Seq<char>) -> Seq<char> {
    match o {
        Some(s) => s@,
        None => default,
    }
}

/// A number of the file, or the default.
pub open spec fn number_or(o: Option<i64>, default: i64) -> i64 {
    match o {
        Some(n) => n,
        None => default,
    }
}

/// What a file says, with the defaults where it says nothing; probes and rules
/// are those under either key, the singular one first.
pub open spec fn merged_config(t: ServerConfigToml) -> ServerView {
    let d = default_server();
    ServerView {
        listen: text_or(t.listen, d.listen),
        db_url: text_or(t.db_url, d.db_url),
        auth_token: text_or(t.auth_token, d.auth_token),
        host_tokens: match t.host_tokens {
            Some(h) => h@,
            None => d.host_tokens,
        },
        probes: t.probe@ + t.probes@,
        scan_interval_secs: number_or(t.scan_interval_secs, d.scan_interval_secs),
        notify_min_interval_secs: number_or(
            t.notify_min_interval_secs,
            d.notify_min_interval_secs,
        ),
        rules: correlation::rule_views(t.rule@) + (match t.rules {
            Some(r) => correlation::rule_views(r@),
            None => seq![],
        }),
        notify: match t.notify {
            Some(n) => n@,
            None => d.notify,
        },
        ui_base_url: text_or(t.ui_base_url, d.ui_base_url),
        watchdog_heartbeat_grace_secs: number_or(
            t.watchdog_heartbeat_grace_secs,
            d.watchdog_heartbeat_grace_secs,
        ),
        watchdog_queue_threshold: number_or(
            t.watchdog_queue_threshold,
            d.watchdog_queue_threshold,
        ),
    }
}

fn or_text(o: Option<String>, default: String) -> (r: String)
    ensures
        r@ == text_or(o, default@),
{
    match o {
        Some(s) => s,
        None => default,
    }
}

fn or_number(o: Option<i64>, default: i64) -> (r: i64)
    ensures
        r == number_or(o, default),
{
    match o {
        Some(n) => n,
        None => default,
    }
}

impl ServerConfig {
    /// The configuration of a file.
    pub fn from_toml(t: ServerConfigToml) -> (r: ServerConfig)
        ensures
            r@ == merged_config(t),
    {
        let ghost file = t;
        let defaults = ServerConfig::default();
        let mut probes = t.probe;
        let mut more = t.probes;
        probes.append(&mut more);
        let mut rules = t.rule;
        match t.rules {
            Some(r) => {
                let mut more = r;
                rules.append(&mut more);
            },
            None => {},
        }
        let r = ServerConfig {
            listen: or_text(t.listen, defaults.listen),
            db_url: or_text(t.db_url, defaults.db_url),
            auth_token: or_text(t.auth_token, defaults.auth_token),
            host_tokens: match t.host_tokens {
                Some(h) => h,
                None => defaults.host_tokens,
            },
            probes,
            scan_interval_secs: or_number(t.scan_interval_secs, defaults.scan_interval_secs),
            notify_min_interval_secs: or_number(
                t.notify_min_interval_secs,
                defaults.notify_min_interval_secs,
            ),
            rules,
            notify: match t.notify {
                Some(n) => n,
                None => defaults.notify,
            },
            ui_base_url: or_text(t.ui_base_url, defaults.ui_base_url),
            watchdog_heartbeat_grace_secs: or_number(
                t.watchdog_heartbeat_grace_secs,
                defaults.watchdog_heartbeat_grace_secs,
            ),
            watchdog_queue_threshold: or_number(
                t.watchdog_queue_threshold,
                defaults.watchdog_queue_threshold,
            ),
        };
        assert(r@.rules =~= merged_config(file).rules);
        assert(r@ =~= merged_config(file));
        r
    }

    /// Whether a server may run: never without a token.
    pub fn may_run(&self) -> (r: bool)
        ensures
            r == (self.auth_token@.len() > 0),
    {
        proof {
            reveal_strlit("");
            assert(self.auth_token@.len() == 0 ==> self.auth_token@ =~= ""@);
        }
        !text::same(self.auth_token.as_str(), "")
    }
}

/// Every probe and every rule of a file is kept, whichever key it stands
/// under.
pub proof fn law_nothing_of_a_file_is_dropped(t: ServerConfigToml)
    ensures
        forall|p: ProbeConfig| #[trigger]
            merged_config(t).probes.contains(p) <==> t.probe@.contains(p) || t.probes@.contains(p),
        merged_config(t).rules.len() == t.rule@.len() + (match t.rules {
            Some(r) => r@.len(),
            None => 0,
        }),
{
    let all = merged_config(t).probes;
    assert forall|p: ProbeConfig| #[trigger] all.contains(p) <==> t.probe@.contains(p)
        || t.probes@.contains(p) by {
        if t.probe@.contains(p) {
            let i = choose|i: int| 0 <= i < t.probe@.len() && t.probe@[i] == p;
            assert(all[i] == p);
        }
        if t.probes@.contains(p) {
            let i = choose|i: int| 0 <= i < t.probes@.len() && t.probes@[i] == p;
            assert(all[t.probe@.len() + i] == p);
        }
        if all.contains(p) {
            let i = choose|i: int| 0 <= i < all.len() && all[i] == p;
            if i < t.probe@.len() {
                assert(t.probe@[i] == p);
            } else {
                assert(t.probes@[i - t.probe@.len()] == p);
            }
        }
    }
}

/// The chat of an environment variable; none when it is no number.
pub open spec fn chat_in(value: Seq<char>) -> Option<int> {
    text::between(
        text::signed_value(text::trim(value)),
        i64::MIN as int,
        i64::MAX as int,
    )
}

/// The notification settings with the Telegram settings of the environment
/// over them. A chat that is no number is ignored.
pub open spec fn with_telegram(
    n: NotifyView,
    token: Option<Seq<char>>,
    chat: Option<Seq<char>>,
    password: Option<Seq<char>>,
) -> NotifyView {
    NotifyView {
        telegram_token: if token is Some {
            token
        } else {
            n.telegram_token
        },
        telegram_chat_id: match chat {
            Some(c) => match chat_in(c) {
                Some(id) => Some(id as i64),
                None => n.telegram_chat_id,
            },
            None => n.telegram_chat_id,
        },
        telegram_password: if password is Some {
            password
        } else {
            n.telegram_password
        },
        ..n
    }
}

/// Apply the Telegram env overrides (the "1-2 line" setup):
/// TELEGRAM_BOT_TOKEN (required for the channel), the optional
/// TELEGRAM_CHAT_ID (pins the target chat; without it, the chat is
/// auto-discovered from the bot's updates), and the optional
/// TELEGRAM_BOT_PASSWORD (requires the password handshake before a chat
/// can register).
pub fn apply_telegram_env(
    cfg: &mut ServerConfig,
    token: Option<String>,
    chat: Option<String>,
    password: Option<String>,
)
    ensures
        final(cfg)@ == (ServerView {
            notify: with_telegram(
                old(cfg)@.notify,
                text::opt_view(token),
                text::opt_view(chat),
                text::opt_view(password),
            ),
            ..old(cfg)@
        }),
{
    let ghost before = cfg@;
    let ghost (t, c, p) = (text::opt_view(token), text::opt_view(chat), text::opt_view(password));
    match token {
        Some(t) => {
            cfg.notify.telegram_token = Some(t);
        },
        None => {},
    }
    match chat {
        Some(c) => match text::parse_i64(text::trimmed(c.as_str()).as_str()) {
            Some(id) => {
                cfg.notify.telegram_chat_id = Some(id);
            },
            None => {},
        },
        None => {},
    }
    match password {
        Some(p) => {
            cfg.notify.telegram_password = Some(p);
        },
        None => {},
    }
    assert(cfg@.notify =~= with_telegram(before.notify, t, c, p));
    assert(cfg@ =~= (ServerView { notify: with_telegram(before.notify, t, c, p), ..before }));
}

/// Directory of the static web UI. Resolution order: the directory that the
/// environment names (production installs); the built-in one, when it is
/// there (dev); ./static relative to the working directory (binary deploys).
pub fn ui_dir(named: Option<String>, built_in: String, built_in_is_dir: bool) -> (r: String)
    ensures
        r@ == (match named {
            Some(d) => d@,
            None => if built_in_is_dir {
                built_in@
            } else {
                "static"@
            },
        }),
{
    match named {
        Some(d) => d,
        None => if built_in_is_dir {
            built_in
        } else {
            text::owned("static")
        },
    }
}

/// What a file says counts, and what it leaves out has its default.
pub proof fn law_files_override_the_defaults(t: ServerConfigToml)
    ensures
        ({
            let c = merged_config(t);
            &&& t.listen matches Some(s) ==> c.listen == s@
            &&& t.listen is None ==> c.listen == "127.0.0.1:8787"@
            &&& t.db_url matches Some(s) ==> c.db_url == s@
            &&& t.db_url is None ==> c.db_url == "sqlite:///var/lib/watchtower/watchtower.db"@
            &&& t.auth_token matches Some(s) ==> c.auth_token == s@
            &&& t.auth_token is None ==> c.auth_token.len() == 0
            &&& t.host_tokens matches Some(h) ==> c.host_tokens == h@
            &&& t.host_tokens is None ==> c.host_tokens.len() == 0
            &&& t.scan_interval_secs matches Some(n) ==> c.scan_interval_secs == n
            &&& t.scan_interval_secs is None ==> c.scan_interval_secs == 10
            &&& t.notify_min_interval_secs matches Some(n) ==> c.notify_min_interval_secs == n
            &&& t.notify_min_interval_secs is None ==> c.notify_min_interval_secs == 60
            &&& t.notify matches Some(n) ==> c.notify == n@
            &&& t.ui_base_url matches Some(s) ==> c.ui_base_url == s@
            &&& t.ui_base_url is None ==> c.ui_base_url == "http://127.0.0.1:8787"@
            &&& t.watchdog_heartbeat_grace_secs matches Some(n)
                ==> c.watchdog_heartbeat_grace_secs == n
            &&& t.watchdog_heartbeat_grace_secs is None ==> c.watchdog_heartbeat_grace_secs == 90
            &&& t.watchdog_queue_threshold matches Some(n) ==> c.watchdog_queue_threshold == n
            &&& t.watchdog_queue_threshold is None ==> c.watchdog_queue_threshold == 100
        }),
        ({
            let c = merged_config(t);
            &&& forall|i: int|
                0 <= i < t.rule@.len() ==> #[trigger] c.rules[i] == t.rule@[i]@
            &&& t.rules matches Some(r) ==> forall|i: int|
                0 <= i < r@.len() ==> #[trigger] c.rules[t.rule@.len() + i] == r@[i]@
        }),
{
}

/// What the environment says of telegram counts over the file; a chat that is
/// no number does not.
pub proof fn law_the_environment_overrides_telegram(
    n: NotifyView,
    token: Option<Seq<char>>,
    chat: i64,
    password: Option<Seq<char>>,
)
    ensures
        ({
            let r = with_telegram(n, token, Some(text::dec_int(chat as int)), password);
            &&& r.telegram_chat_id == Some(chat)
            &&& token is Some ==> r.telegram_token == token
            &&& token is None ==> r.telegram_token == n.telegram_token
            &&& password is Some ==> r.telegram_password == password
            &&& password is None ==> r.telegram_password == n.telegram_password
            &&& r.webhook_url == n.webhook_url && r.slack_url == n.slack_url && r.routing
                == n.routing
            &&& with_telegram(n, token, None, password).telegram_chat_id == n.telegram_chat_id
        }),
        forall|word: Seq<char>|
            text::signed_value(text::trim(word)) is None ==> #[trigger] with_telegram(
                n,
                token,
                Some(word),
                password,
            ).telegram_chat_id == n.telegram_chat_id,
{
    let d = text::dec_int(chat as int);
    text::law_numbers_read_back(chat as int);
    let m = if chat < 0 {
        -(chat as int)
    } else {
        chat as int
    };
    text::lemma_digits_are_digits(m as nat, 10);
    text::law_digits_read_back(m as nat, 10);
    let digits = text::digits(m as nat, 10);
    assert(text::digit(digits[0], 10) is Some);
    assert(text::digit(digits[digits.len() - 1], 10) is Some);
    assert(d.last() == digits.last());
    assert(!text::is_space(d[0]) && !text::is_space(d.last()));
    text::lemma_trim_nothing(d);
}

} // verus!
