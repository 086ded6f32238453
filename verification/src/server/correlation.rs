//! Rule-based correlation: the events of a host's window become incidents.

use vstd::prelude::*;

use crate::common;
use crate::common::{AgentEvent, EventKind, EventView, Severity};
use crate::seqs;
use crate::table;
use crate::table::TextSet;
use crate::text;

verus! {

broadcast use common::lemma_events_push;

/// One correlation rule: a trigger kind plus supporting kinds within a
/// sliding window per host.
#[derive(Debug, Clone)]
pub struct Rule {
    pub id: String,
    pub trigger: EventKind,
    pub supporting: Vec<EventKind>,
    pub min_supporting: u32,
    pub window_secs: i64,
    pub cooldown_secs: i64,
    pub severity: Severity,
    pub headline: String,
    pub cause: String,
    pub actions: Vec<String>,
    /// The fallback rule matches no trigger; handled separately.
    pub is_fallback: bool,
}

/// What a `Rule` says.
#[verifier::ext_equal]
pub struct RuleView {
    pub id: Seq<char>,
    pub trigger: EventKind,
    pub supporting: Seq<EventKind>,
    pub min_supporting: u32,
    pub window_secs: i64,
    pub cooldown_secs: i64,
    pub severity: Severity,
    pub headline: Seq<char>,
    pub cause: Seq<char>,
    pub actions: Seq<Seq<char>>,
    pub is_fallback: bool,
}

impl View for Rule {
    type V = RuleView;

    open spec fn view(&self) -> RuleView {
        RuleView {
            id: self.id@,
            trigger: self.trigger,
            supporting: self.supporting@,
            min_supporting: self.min_supporting,
            window_secs: self.window_secs,
            cooldown_secs: self.cooldown_secs,
            severity: self.severity,
            headline: self.headline@,
            cause: self.cause@,
            actions: text::views(self.actions@),
            is_fallback: self.is_fallback,
        }
    }
}

/// What each rule of a list says.
pub open spec fn rule_views(v: Seq<Rule>) -> Seq<RuleView> {
    v.map_values(|r: Rule| r@)
}

/// The `min_supporting` of a rule that names none.
pub const DEFAULT_MIN_SUPPORTING: u32 = 1;

/// The `window_secs` of a rule that names none.
pub const DEFAULT_WINDOW_SECS: i64 = 300;

/// The `cooldown_secs` of a rule that names none.
pub const DEFAULT_COOLDOWN_SECS: i64 = 600;

/// A rule match: the events that constitute it.
#[derive(Debug)]
pub struct RuleMatch {
    pub events: Vec<AgentEvent>,
    /// The unit name from the trigger event's key ("svc:myapp.service").
    pub service: Option<String>,
}

/// What a `RuleMatch` says.
#[verifier::ext_equal]
pub struct MatchView {
    pub events: Seq<EventView>,
    pub service: Option<Seq<char>>,
}

impl View for RuleMatch {
    type V = MatchView;

    open spec fn view(&self) -> MatchView {
        MatchView { events: common::events(self.events@), service: text::opt_view(self.service) }
    }
}

/// An incident about to be persisted.
#[derive(Debug)]
pub struct IncidentDraft {
    pub key: String,
    pub host_id: String,
    pub severity: String,
    pub headline: String,
    pub cause: String,
    pub actions: Vec<String>,
    pub affected: Vec<String>,
    pub events: Vec<AgentEvent>,
}

/// What an `IncidentDraft` says.
#[verifier::ext_equal]
pub struct DraftView {
    pub key: Seq<char>,
    pub host_id: Seq<char>,
    pub severity: Seq<char>,
    pub headline: Seq<char>,
    pub cause: Seq<char>,
    pub actions: Seq<Seq<char>>,
    pub affected: Seq<Seq<char>>,
    pub events: Seq<EventView>,
}

impl View for IncidentDraft {
    type V = DraftView;

    open spec fn view(&self) -> DraftView {
        DraftView {
            key: self.key@,
            host_id: self.host_id@,
            severity: self.severity@,
            headline: self.headline@,
            cause: self.cause@,
            actions: text::views(self.actions@),
            affected: text::views(self.affected@),
            events: common::events(self.events@),
        }
    }
}

/// What each draft of a list says.
pub open spec fn draft_views(v: Seq<IncidentDraft>) -> Seq<DraftView> {
    v.map_values(|d: IncidentDraft| d@)
}

/// A service failure after a configuration change, a login or a restart.
pub open spec fn config_change_rule() -> RuleView {
    RuleView {
        id: "config_change_outage"@,
        trigger: EventKind::ServiceFailed,
        supporting: seq![
            EventKind::FileChanged,
            EventKind::SshLogin,
            EventKind::SudoUsed,
            EventKind::ServiceRestarted,
            EventKind::CpuSpike,
            EventKind::HostUnreachable,
        ],
        min_supporting: 1,
        window_secs: 300,
        cooldown_secs: 600,
        severity: Severity::Critical,
        headline: "{service} became unhealthy after a configuration change"@,
        cause: "A configuration change was followed by a service failure within {window} seconds."@,
        actions: seq![
            "Review the change to the affected configuration file"@,
            "Roll back the latest configuration"@,
            "Verify the SSH session that preceded the change"@,
        ],
        is_fallback: false,
    }
}

/// A brute-force attack, with the failed logins that it is made of.
pub open spec fn brute_force_rule() -> RuleView {
    RuleView {
        id: "ssh_bruteforce"@,
        trigger: EventKind::SshBruteForce,
        supporting: seq![EventKind::SshFailed],
        min_supporting: 1,
        window_secs: 300,
        cooldown_secs: 600,
        severity: Severity::Critical,
        headline: "Brute-force attack against {host}"@,
        cause: "Repeated failed SSH logins exceeded the threshold."@,
        actions: seq![
            "Block the source IP at the firewall"@,
            "Check for successful logins from the same source"@,
        ],
        is_fallback: false,
    }
}

/// A login as root.
pub open spec fn root_login_rule() -> RuleView {
    RuleView {
        id: "root_login"@,
        trigger: EventKind::RootLogin,
        supporting: seq![EventKind::SshLogin],
        min_supporting: 0,
        window_secs: 300,
        cooldown_secs: 600,
        severity: Severity::Critical,
        headline: "Root access on {host}"@,
        cause: "A login as root was recorded."@,
        actions: seq!["Verify the session was authorized"@],
        is_fallback: false,
    }
}

/// A host that the probes no longer reach.
pub open spec fn unreachable_rule() -> RuleView {
    RuleView {
        id: "server_unreachable"@,
        trigger: EventKind::HostUnreachable,
        supporting: seq![],
        min_supporting: 0,
        window_secs: 300,
        cooldown_secs: 600,
        severity: Severity::Critical,
        headline: "{host} is unreachable"@,
        cause: "External probes failed consecutively."@,
        actions: seq!["Check power and network"@],
        is_fallback: false,
    }
}

/// Whatever no other rule takes. Its trigger is never looked at.
pub open spec fn fallback_rule() -> RuleView {
    RuleView {
        id: "fallback"@,
        trigger: EventKind::CpuSpike,
        supporting: seq![],
        min_supporting: 0,
        window_secs: 300,
        cooldown_secs: 300,
        severity: Severity::Warning,
        headline: seq![],
        cause: seq![],
        actions: seq![],
        is_fallback: true,
    }
}

/// The rules shipped with the server.
pub open spec fn shipped_rules() -> Seq<RuleView> {
    seq![
        config_change_rule(),
        brute_force_rule(),
        root_login_rule(),
        unreachable_rule(),
        fallback_rule(),
    ]
}

fn default_config_change() -> (r: Rule)
    ensures
        r@ == config_change_rule(),
{
    let mut supporting: Vec<EventKind> = Vec::new();
    supporting.push(EventKind::FileChanged);
    supporting.push(EventKind::SshLogin);
    supporting.push(EventKind::SudoUsed);
    supporting.push(EventKind::ServiceRestarted);
    // Absorbed into the incident, so that one outage is one notification.
    supporting.push(EventKind::CpuSpike);
    // A probe failure joins the outage incident instead of opening a second.
    supporting.push(EventKind::HostUnreachable);
    let mut actions: Vec<String> = Vec::new();
    actions.push(text::owned("Review the change to the affected configuration file"));
    actions.push(text::owned("Roll back the latest configuration"));
    actions.push(text::owned("Verify the SSH session that preceded the change"));
    let r = Rule {
        id: text::owned("config_change_outage"),
        trigger: EventKind::ServiceFailed,
        supporting,
        min_supporting: 1,
        window_secs: 300,
        cooldown_secs: 600,
        severity: Severity::Critical,
        headline: text::owned("{service} became unhealthy after a configuration change"),
        cause: text::owned(
            "A configuration change was followed by a service failure within {window} seconds.",
        ),
        actions,
        is_fallback: false,
    };
    assert(r@.actions =~= config_change_rule().actions);
    assert(r@ =~= config_change_rule());
    r
}

fn default_brute_force() -> (r: Rule)
    ensures
        r@ == brute_force_rule(),
{
    let mut supporting: Vec<EventKind> = Vec::new();
    supporting.push(EventKind::SshFailed);
    let mut actions: Vec<String> = Vec::new();
    actions.push(text::owned("Block the source IP at the firewall"));
    actions.push(text::owned("Check for successful logins from the same source"));
    let r = Rule {
        id: text::owned("ssh_bruteforce"),
        trigger: EventKind::SshBruteForce,
        supporting,
        min_supporting: 1,
        window_secs: 300,
        cooldown_secs: 600,
        severity: Severity::Critical,
        headline: text::owned("Brute-force attack against {host}"),
        cause: text::owned("Repeated failed SSH logins exceeded the threshold."),
        actions,
        is_fallback: false,
    };
    assert(r@.actions =~= brute_force_rule().actions);
    assert(r@ =~= brute_force_rule());
    r
}

fn default_root_login() -> (r: Rule)
    ensures
        r@ == root_login_rule(),
{
    let mut supporting: Vec<EventKind> = Vec::new();
    supporting.push(EventKind::SshLogin);
    let mut actions: Vec<String> = Vec::new();
    actions.push(text::owned("Verify the session was authorized"));
    let r = Rule {
        id: text::owned("root_login"),
        trigger: EventKind::RootLogin,
        supporting,
        min_supporting: 0,
        window_secs: 300,
        cooldown_secs: 600,
        severity: Severity::Critical,
        headline: text::owned("Root access on {host}"),
        cause: text::owned("A login as root was recorded."),
        actions,
        is_fallback: false,
    };
    assert(r@.actions =~= root_login_rule().actions);
    assert(r@ =~= root_login_rule());
    r
}

fn default_unreachable() -> (r: Rule)
    ensures
        r@ == unreachable_rule(),
{
    let mut actions: Vec<String> = Vec::new();
    actions.push(text::owned("Check power and network"));
    let r = Rule {
        id: text::owned("server_unreachable"),
        trigger: EventKind::HostUnreachable,
        supporting: Vec::new(),
        min_supporting: 0,
        window_secs: 300,
        cooldown_secs: 600,
        severity: Severity::Critical,
        headline: text::owned("{host} is unreachable"),
        cause: text::owned("External probes failed consecutively."),
        actions,
        is_fallback: false,
    };
    assert(r@.actions =~= unreachable_rule().actions);
    assert(r@ =~= unreachable_rule());
    r
}

fn default_fallback() -> (r: Rule)
    ensures
        r@ == fallback_rule(),
{
    let r = Rule {
        id: text::owned("fallback"),
        trigger: EventKind::CpuSpike,
        supporting: Vec::new(),
        min_supporting: 0,
        window_secs: 300,
        cooldown_secs: 300,
        severity: Severity::Warning,
        headline: String::new(),
        cause: String::new(),
        actions: Vec::new(),
        is_fallback: true,
    };
    assert(r@.actions =~= fallback_rule().actions);
    assert(r@ =~= fallback_rule());
    r
}

/// Default rules shipped with the server. `[[rule]]` entries in server.toml
/// override by id or add new ones.
pub fn default_rules() -> (r: Vec<Rule>)
    ensures
        rule_views(r@) == shipped_rules(),
{
    let mut r: Vec<Rule> = Vec::new();
    r.push(default_config_change());
    r.push(default_brute_force());
    r.push(default_root_login());
    r.push(default_unreachable());
    r.push(default_fallback());
    assert(rule_views(r@) =~= shipped_rules());
    r
}

/// The rules with `r` in the place of the first with its id, or behind them.
pub open spec fn with_rule(rules: Seq<RuleView>, r: RuleView) -> Seq<RuleView>
    decreases rules.len(),
{
    if rules.len() == 0 {
        seq![r]
    } else if rules[0].id == r.id {
        seq![r] + rules.skip(1)
    } else {
        seq![rules[0]] + with_rule(rules.skip(1), r)
    }
}

/// The rules with each of `over` put over them in turn.
pub open spec fn merged(rules: Seq<RuleView>, over: Seq<RuleView>) -> Seq<RuleView>
    decreases over.len(),
{
    if over.len() == 0 {
        rules
    } else {
        with_rule(merged(rules, over.drop_last()), over.last())
    }
}

/// The first rule with an id.
pub open spec fn rule_named(rules: Seq<RuleView>, id: Seq<char>) -> Option<RuleView>
    decreases rules.len(),
{
    if rules.len() == 0 {
        None
    } else if rules[0].id == id {
        Some(rules[0])
    } else {
        rule_named(rules.skip(1), id)
    }
}

/// A rule that is put over others is the rule of its id, and the rule of every
/// other id stays.
pub proof fn law_override_by_id(rules: Seq<RuleView>, r: RuleView, id: Seq<char>)
    ensures
        rule_named(with_rule(rules, r), id) == (if id == r.id {
            Some(r)
        } else {
            rule_named(rules, id)
        }),
    decreases rules.len(),
{
    let all = with_rule(rules, r);
    if rules.len() == 0 {
        assert(all.skip(1) =~= seq![]);
        assert(rule_named(all.skip(1), id) is None);
    } else if rules[0].id == r.id {
        assert(all.skip(1) =~= rules.skip(1));
        assert(all[0] == r);
    } else {
        law_override_by_id(rules.skip(1), r, id);
        assert(all.skip(1) =~= with_rule(rules.skip(1), r));
        assert(all[0] == rules[0]);
    }
}

fn copy_kinds(v: &Vec<EventKind>) -> (r: Vec<EventKind>)
    ensures
        r@ == v@,
{
    let mut r: Vec<EventKind> = Vec::new();
    let mut i: usize = 0;
    while i < v.len()
        invariant
            i <= v@.len(),
            r@ == v@.take(i as int),
        decreases v@.len() - i,
    {
        r.push(v[i]);
        assert(v@.take(i + 1) =~= v@.take(i as int).push(v@[i as int]));
        i = i + 1;
    }
    assert(v@.take(v@.len() as int) =~= v@);
    r
}

impl Rule {
    /// A copy of a rule.
    pub fn copy(&self) -> (r: Rule)
        ensures
            r@ == self@,
    {
        let r = Rule {
            id: self.id.clone(),
            trigger: self.trigger,
            supporting: copy_kinds(&self.supporting),
            min_supporting: self.min_supporting,
            window_secs: self.window_secs,
            cooldown_secs: self.cooldown_secs,
            severity: self.severity,
            headline: self.headline.clone(),
            cause: self.cause.clone(),
            actions: text::copied(&self.actions),
            is_fallback: self.is_fallback,
        };
        assert(r@ =~= self@);
        r
    }
}

fn put_rule(rules: &mut Vec<Rule>, r: Rule)
    ensures
        rule_views(final(rules)@) == with_rule(rule_views(old(rules)@), r@),
{
    let ghost all = rule_views(rules@);
    let mut i: usize = 0;
    assert(all.take(0) + with_rule(all.skip(0), r@) =~= with_rule(all, r@)) by {
        assert(all.skip(0) =~= all);
    }
    while i < rules.len()
        invariant
            i <= rules@.len(),
            *rules == *old(rules),
            all == rule_views(rules@),
            all.take(i as int) + with_rule(all.skip(i as int), r@) == with_rule(all, r@),
        decreases rules@.len() - i,
    {
        assert(all.skip(i as int)[0] == rules@[i as int]@);
        assert(all.skip(i as int).skip(1) =~= all.skip(i + 1));
        if text::same(rules[i].id.as_str(), r.id.as_str()) {
            rules.set(i, r);
            assert(rule_views(rules@) =~= all.take(i as int) + (seq![r@] + all.skip(i + 1)));
            return;
        }
        assert(all.take(i + 1) + with_rule(all.skip(i + 1), r@) =~= all.take(i as int) + (
        seq![all[i as int]] + with_rule(all.skip(i + 1), r@)));
        i = i + 1;
    }
    rules.push(r);
    assert(all.skip(i as int) =~= seq![]);
    assert(rule_views(rules@) =~= all.take(i as int) + seq![r@]);
}

/// The effective rules: the configured rules over the built-in ones, each in
/// the place of the rule with its id, new ones behind.
pub fn merged_rules(configured: &Vec<Rule>) -> (r: Vec<Rule>)
    ensures
        rule_views(r@) == merged(shipped_rules(), rule_views(configured@)),
{
    let ghost over = rule_views(configured@);
    let mut r = default_rules();
    let mut i: usize = 0;
    assert(over.take(0) =~= seq![]);
    while i < configured.len()
        invariant
            i <= configured@.len(),
            over == rule_views(configured@),
            rule_views(r@) == merged(shipped_rules(), over.take(i as int)),
        decreases configured@.len() - i,
    {
        proof {
            seqs::lemma_take_step(over, i as int);
        }
        put_rule(&mut r, configured[i].copy());
        i = i + 1;
    }
    assert(over.take(configured@.len() as int) =~= over);
    r
}

/// An event that a rule may use: not absorbed yet, and within the rule's
/// window before `now`.
pub open spec fn in_window(
    rule: RuleView,
    e: EventView,
    now: int,
    exclude: Seq<Seq<char>>,
) -> bool {
    &&& !exclude.contains(e.id)
    &&& now - rule.window_secs * 1000 <= e.ts <= now
}

/// The events that a rule may use.
pub open spec fn window_events(
    rule: RuleView,
    evs: Seq<EventView>,
    now: int,
    exclude: Seq<Seq<char>>,
) -> Seq<EventView> {
    seqs::kept(evs, |e: EventView| in_window(rule, e, now, exclude))
}

/// The first event of a kind.
pub open spec fn first_of_kind(evs: Seq<EventView>, kind: EventKind) -> Option<EventView>
    decreases evs.len(),
{
    if evs.len() == 0 {
        None
    } else {
        match first_of_kind(evs.drop_last(), kind) {
            Some(e) => Some(e),
            None => if evs.last().kind == kind {
                Some(evs.last())
            } else {
                None
            },
        }
    }
}

/// An event that supports a rule.
pub open spec fn supports(rule: RuleView, e: EventView) -> bool {
    e.kind != rule.trigger && rule.supporting.contains(e.kind)
}

/// How many events support a rule.
pub open spec fn support(rule: RuleView, evs: Seq<EventView>) -> nat {
    seqs::kept(evs, |e: EventView| supports(rule, e)).len()
}

/// What a rule makes of a host's events: all that it may use, when one of
/// them triggers it and enough support it.
pub open spec fn rule_match(
    rule: RuleView,
    evs: Seq<EventView>,
    now: int,
    exclude: Seq<Seq<char>>,
) -> Option<MatchView> {
    let w = window_events(rule, evs, now, exclude);
    if rule.is_fallback {
        None
    } else {
        match first_of_kind(w, rule.trigger) {
            Some(t) => if support(rule, w) < rule.min_supporting {
                None
            } else {
                Some(MatchView { events: w, service: text::after_prefix(t.key, "svc:"@) })
            },
            None => None,
        }
    }
}

/// A rule uses exactly the given events that are in its window and not yet
/// absorbed, and one of them is of its trigger kind. The fallback rule never
/// matches.
pub proof fn law_match_uses_the_window(
    rule: RuleView,
    evs: Seq<EventView>,
    now: int,
    exclude: Seq<Seq<char>>,
)
    ensures
        rule.is_fallback ==> rule_match(rule, evs, now, exclude) is None,
        rule_match(rule, evs, now, exclude) matches Some(m) ==> {
            &&& forall|e: EventView| #[trigger]
                m.events.contains(e) <==> evs.contains(e) && in_window(rule, e, now, exclude)
            &&& exists|e: EventView| #[trigger] m.events.contains(e) && e.kind == rule.trigger
        },
{
    let p = |e: EventView| in_window(rule, e, now, exclude);
    let w = window_events(rule, evs, now, exclude);
    seqs::lemma_kept(evs, p);
    lemma_first_of_kind(w, rule.trigger);
    assert forall|e: EventView| #[trigger] w.contains(e) <==> evs.contains(e) && in_window(
        rule,
        e,
        now,
        exclude,
    ) by {
        assert(p(e) == in_window(rule, e, now, exclude));
        assert(w == seqs::kept(evs, p));
    }
    if let Some(m) = rule_match(rule, evs, now, exclude) {
        assert(m.events == w);
        let t = first_of_kind(w, rule.trigger)->0;
        assert(m.events.contains(t) && t.kind == rule.trigger);
    }
}

proof fn lemma_first_of_kind(evs: Seq<EventView>, kind: EventKind)
    ensures
        first_of_kind(evs, kind) matches Some(e) ==> evs.contains(e) && e.kind == kind,
        first_of_kind(evs, kind) is None ==> forall|i: int|
            0 <= i < evs.len() ==> #[trigger] evs[i].kind != kind,
    decreases evs.len(),
{
    if evs.len() > 0 {
        let init = evs.drop_last();
        lemma_first_of_kind(init, kind);
        match first_of_kind(init, kind) {
            Some(e) => {
                let k = choose|k: int| 0 <= k < init.len() && init[k] == e;
                assert(evs[k] == e);
            },
            None => {
                assert(evs[evs.len() - 1] == evs.last());
                assert forall|i: int|
                    first_of_kind(evs, kind) is None && 0 <= i < evs.len() implies #[trigger] evs[i].kind
                    != kind by {
                    if i < init.len() {
                        assert(init[i] == evs[i]);
                    }
                }
            },
        }
    }
}

/// A rule other than the fallback matches exactly when an event of its trigger
/// kind, and events of its supporting kinds in as many places as it asks for,
/// lie within its window and are not absorbed. Nothing but kind, time and id
/// decides.
pub proof fn law_match_needs_trigger_and_support(
    rule: RuleView,
    evs: Seq<EventView>,
    now: int,
    exclude: Seq<Seq<char>>,
)
    ensures
        ({
            let places = Set::new(
                |i: int|
                    0 <= i < evs.len() && !exclude.contains(evs[i].id) && now - rule.window_secs
                        * 1000 <= evs[i].ts <= now && evs[i].kind != rule.trigger
                        && rule.supporting.contains(evs[i].kind),
            );
            &&& places.finite()
            &&& !rule.is_fallback ==> (rule_match(rule, evs, now, exclude) is Some <==> (
            exists|i: int|
                0 <= i < evs.len() && !exclude.contains((#[trigger] evs[i]).id) && now
                    - rule.window_secs * 1000 <= evs[i].ts <= now && evs[i].kind == rule.trigger)
                && places.len() >= rule.min_supporting)
        }),
{
    let p = |e: EventView| in_window(rule, e, now, exclude);
    let q = |e: EventView| supports(rule, e);
    let both = |e: EventView| in_window(rule, e, now, exclude) && supports(rule, e);
    let w = window_events(rule, evs, now, exclude);
    let places = Set::new(
        |i: int|
            0 <= i < evs.len() && !exclude.contains(evs[i].id) && now - rule.window_secs * 1000
                <= evs[i].ts <= now && evs[i].kind != rule.trigger && rule.supporting.contains(
                evs[i].kind,
            ),
    );
    seqs::lemma_kept_twice(evs, p, q, both);
    seqs::lemma_kept_counts(evs, both);
    assert(places =~= Set::new(|i: int| 0 <= i < evs.len() && both(evs[i])));
    assert(support(rule, w) == places.len());
    seqs::lemma_kept(evs, p);
    lemma_first_of_kind(w, rule.trigger);
    if first_of_kind(w, rule.trigger) is Some {
        let t = first_of_kind(w, rule.trigger)->0;
        assert(evs.contains(t) && p(t));
        let i = choose|i: int| 0 <= i < evs.len() && evs[i] == t;
        assert(evs[i].kind == rule.trigger);
    }
    if exists|i: int|
        0 <= i < evs.len() && !exclude.contains((#[trigger] evs[i]).id) && now - rule.window_secs
            * 1000 <= evs[i].ts <= now && evs[i].kind == rule.trigger {
        let i = choose|i: int|
            0 <= i < evs.len() && !exclude.contains((#[trigger] evs[i]).id) && now
                - rule.window_secs * 1000 <= evs[i].ts <= now && evs[i].kind == rule.trigger;
        assert(evs.contains(evs[i]) && p(evs[i]));
        assert(w.contains(evs[i]));
        let k = choose|k: int| 0 <= k < w.len() && w[k] == evs[i];
        assert(w[k].kind == rule.trigger);
    }
}

/// Where a rule asks for one supporting event at most, a trigger and an event
/// of a supporting kind in the window make a match, whatever their severities,
/// keys and order.
pub proof fn law_one_supporter_is_enough(
    rule: RuleView,
    evs: Seq<EventView>,
    now: int,
    exclude: Seq<Seq<char>>,
    t: int,
    s: int,
)
    requires
        !rule.is_fallback,
        rule.min_supporting <= 1,
        0 <= t < evs.len(),
        0 <= s < evs.len(),
        evs[t].kind == rule.trigger,
        evs[s].kind != rule.trigger,
        rule.supporting.contains(evs[s].kind),
        !exclude.contains(evs[t].id) && !exclude.contains(evs[s].id),
        now - rule.window_secs * 1000 <= evs[t].ts <= now,
        now - rule.window_secs * 1000 <= evs[s].ts <= now,
    ensures
        rule_match(rule, evs, now, exclude) matches Some(m) && m.events.contains(evs[t])
            && m.events.contains(evs[s]),
{
    law_match_needs_trigger_and_support(rule, evs, now, exclude);
    law_match_uses_the_window(rule, evs, now, exclude);
    let places = Set::new(
        |i: int|
            0 <= i < evs.len() && !exclude.contains(evs[i].id) && now - rule.window_secs * 1000
                <= evs[i].ts <= now && evs[i].kind != rule.trigger && rule.supporting.contains(
                evs[i].kind,
            ),
    );
    assert(places.contains(s));
    assert(places.len() > 0) by {
        if places.len() == 0 {
            assert(places =~= Set::<int>::empty());
        }
    }
    assert(evs.contains(evs[t]) && evs.contains(evs[s]));
}

/// The service of a match is named by the first event of the trigger kind in
/// the window: what its key says behind "svc:", and none where the key begins
/// otherwise. The events stay in their order.
pub proof fn law_match_names_the_triggers_service(
    rule: RuleView,
    evs: Seq<EventView>,
    now: int,
    exclude: Seq<Seq<char>>,
    t: int,
)
    requires
        0 <= t < evs.len(),
        evs[t].kind == rule.trigger,
        !exclude.contains(evs[t].id),
        now - rule.window_secs * 1000 <= evs[t].ts <= now,
        forall|i: int|
            0 <= i < t && (#[trigger] evs[i]).kind == rule.trigger ==> exclude.contains(evs[i].id)
                || !(now - rule.window_secs * 1000 <= evs[i].ts <= now),
    ensures
        rule_match(rule, evs, now, exclude) matches Some(m) ==> {
            &&& forall|name: Seq<char>| evs[t].key == #[trigger] ("svc:"@ + name) ==> m.service
                == Some(name)
            &&& m.service matches Some(name) ==> evs[t].key == "svc:"@ + name
            &&& m.events == evs.filter(
                |e: EventView|
                    !exclude.contains(e.id) && now - rule.window_secs * 1000 <= e.ts <= now,
            )
        },
{
    let p = |e: EventView| in_window(rule, e, now, exclude);
    let f = |e: EventView|
        !exclude.contains(e.id) && now - rule.window_secs * 1000 <= e.ts <= now;
    let w = window_events(rule, evs, now, exclude);
    seqs::lemma_kept_is_filter(evs, p, f);
    lemma_first_in_window(evs, p, rule.trigger, t);
    let key = evs[t].key;
    assert forall|name: Seq<char>| key == #[trigger] ("svc:"@ + name) implies text::after_prefix(
        key,
        "svc:"@,
    ) == Some(name) by {
        assert(("svc:"@ + name).skip("svc:"@.len() as int) =~= name);
        assert(("svc:"@ + name).take("svc:"@.len() as int) =~= "svc:"@);
    }
    if let Some(name) = text::after_prefix(key, "svc:"@) {
        assert(key =~= "svc:"@ + name);
    }
}

proof fn lemma_first_in_window(
    evs: Seq<EventView>,
    p: spec_fn(EventView) -> bool,
    kind: EventKind,
    t: int,
)
    requires
        0 <= t < evs.len(),
        evs[t].kind == kind,
        p(evs[t]),
        forall|i: int| 0 <= i < t && (#[trigger] evs[i]).kind == kind ==> !p(evs[i]),
    ensures
        first_of_kind(seqs::kept(evs, p), kind) == Some(evs[t]),
    decreases evs.len(),
{
    let init = evs.drop_last();
    let k = seqs::kept(init, p);
    assert(k.push(evs.last()).drop_last() =~= k);
    if t < init.len() {
        assert(forall|i: int| 0 <= i < init.len() ==> #[trigger] init[i] == evs[i]);
        lemma_first_in_window(init, p, kind, t);
    } else {
        lemma_first_of_kind(k, kind);
        seqs::lemma_kept(init, p);
        if first_of_kind(k, kind) is Some {
            let e = first_of_kind(k, kind)->0;
            assert(init.contains(e) && p(e));
            let i = choose|i: int| 0 <= i < init.len() && init[i] == e;
            assert(evs[i] == e);
        }
    }
}

fn has_kind(v: &Vec<EventKind>, k: EventKind) -> (r: bool)
    ensures
        r == v@.contains(k),
{
    let mut i: usize = 0;
    while i < v.len()
        invariant
            i <= v@.len(),
            forall|j: int| 0 <= j < i ==> #[trigger] v@[j] != k,
        decreases v@.len() - i,
    {
        if v[i] == k {
            assert(v@[i as int] == k);
            return true;
        }
        i = i + 1;
    }
    false
}

fn usable(rule: &Rule, events: &Vec<AgentEvent>, now: i64, exclude: &TextSet) -> (r: Vec<
    AgentEvent,
>)
    ensures
        common::events(r@) == window_events(
            rule@,
            common::events(events@),
            now as int,
            exclude@,
        ),
{
    let ghost all = common::events(events@);
    let ghost (rv, ex, n) = (rule@, exclude@, now as int);
    let ghost p = |e: EventView| in_window(rv, e, n, ex);
    let start: i128 = now as i128 - rule.window_secs as i128 * 1000;
    let mut out: Vec<AgentEvent> = Vec::new();
    let mut i: usize = 0;
    assert(common::events(out@) =~= seqs::kept(all.take(0), p));
    while i < events.len()
        invariant
            i <= events@.len(),
            all == common::events(events@),
            rv == rule@,
            ex == exclude@,
            n == now as int,
            p == (|e: EventView| in_window(rv, e, n, ex)),
            start == now - rule.window_secs * 1000,
            common::events(out@) == seqs::kept(all.take(i as int), p),
        decreases events@.len() - i,
    {
        proof {
            seqs::lemma_take_step(all, i as int);
            assert(all[i as int] == events@[i as int]@);
        }
        let e = &events[i];
        if !exclude.contains(e.id.as_str()) && e.ts as i128 >= start && e.ts <= now {
            out.push(e.copy());
        }
        i = i + 1;
    }
    assert(all.take(events@.len() as int) =~= all);
    out
}

fn trigger_index(events: &Vec<AgentEvent>, kind: EventKind) -> (r: Option<usize>)
    ensures
        match r {
            Some(i) => i < events@.len() && first_of_kind(common::events(events@), kind) == Some(
                events@[i as int]@,
            ),
            None => first_of_kind(common::events(events@), kind) is None,
        },
{
    let ghost all = common::events(events@);
    let mut found: Option<usize> = None;
    let mut i: usize = 0;
    assert(first_of_kind(all.take(0), kind) is None);
    while i < events.len()
        invariant
            i <= events@.len(),
            all == common::events(events@),
            match found {
                Some(k) => k < events@.len() && first_of_kind(all.take(i as int), kind) == Some(
                    events@[k as int]@,
                ),
                None => first_of_kind(all.take(i as int), kind) is None,
            },
        decreases events@.len() - i,
    {
        proof {
            seqs::lemma_take_step(all, i as int);
            assert(all[i as int] == events@[i as int]@);
        }
        if found.is_none() && events[i].kind == kind {
            found = Some(i);
        }
        i = i + 1;
    }
    assert(all.take(events@.len() as int) =~= all);
    found
}

fn count_support(rule: &Rule, events: &Vec<AgentEvent>) -> (r: usize)
    ensures
        r == support(rule@, common::events(events@)),
{
    let ghost all = common::events(events@);
    let ghost rv = rule@;
    let ghost p = |e: EventView| supports(rv, e);
    let mut n: usize = 0;
    let mut i: usize = 0;
    assert(seqs::kept(all.take(0), p).len() == 0);
    while i < events.len()
        invariant
            i <= events@.len(),
            all == common::events(events@),
            rv == rule@,
            p == (|e: EventView| supports(rv, e)),
            n <= i,
            n == seqs::kept(all.take(i as int), p).len(),
        decreases events@.len() - i,
    {
        proof {
            seqs::lemma_take_step(all, i as int);
            assert(all[i as int] == events@[i as int]@);
        }
        let k = events[i].kind;
        if k != rule.trigger && has_kind(&rule.supporting, k) {
            n = n + 1;
        }
        i = i + 1;
    }
    assert(all.take(events@.len() as int) =~= all);
    n
}

/// Match a rule against a host's window events. Events already absorbed by
/// an earlier rule (in `exclude`) never match: this keeps one event in one
/// incident and lets the config-change rule claim the HostUnreachable event
/// before the server_unreachable rule can.
pub fn match_rule(
    rule: &Rule,
    events: &Vec<AgentEvent>,
    now: i64,
    _host: &str,
    exclude: &TextSet,
) -> (r: Option<RuleMatch>)
    ensures
        match r {
            Some(m) => rule_match(rule@, common::events(events@), now as int, exclude@) == Some(
                m@,
            ),
            None => rule_match(rule@, common::events(events@), now as int, exclude@) is None,
        },
{
    if rule.is_fallback {
        return None;
    }
    let window = usable(rule, events, now, exclude);
    match trigger_index(&window, rule.trigger) {
        None => None,
        Some(t) => {
            let n: usize = count_support(rule, &window);
            if (n as u128) < rule.min_supporting as u128 {
                None
            } else {
                let service = text::strip_prefix(window[t].key.as_str(), "svc:");
                Some(RuleMatch { events: window, service })
            }
        },
    }
}

/// A template with its {host} and {service} slots filled.
pub open spec fn filled(tpl: Seq<char>, host: Seq<char>, service: Option<Seq<char>>) -> Seq<char> {
    let name = match service {
        Some(s) => s,
        None => "a service"@,
    };
    text::replace_all(text::replace_all(tpl, "{host}"@, host), "{service}"@, name)
}

/// Fill {host} and {service} slots in a template.
pub fn fill_template(tpl: &str, host: &str, service: Option<&str>) -> (r: String)
    ensures
        r@ == filled(
            tpl@,
            host@,
            match service {
                Some(s) => Some(s@),
                None => None,
            },
        ),
{
    proof {
        reveal_strlit("{host}");
        reveal_strlit("{service}");
    }
    let name = match service {
        Some(s) => s,
        None => "a service",
    };
    let with_host = text::replaced(tpl, "{host}", host);
    text::replaced(with_host.as_str(), "{service}", name)
}

/// What an incident affects: the host, and the key of each event, each once.
pub open spec fn affected_by(host: Seq<char>, evs: Seq<EventView>) -> Seq<Seq<char>>
    decreases evs.len(),
{
    if evs.len() == 0 {
        seq![host]
    } else {
        table::with_item(affected_by(host, evs.drop_last()), evs.last().key)
    }
}

/// The incident that a rule makes of a match.
pub open spec fn assembled(rule: RuleView, m: MatchView, host: Seq<char>) -> DraftView {
    DraftView {
        key: "rule:"@ + rule.id + ":"@ + host,
        host_id: host,
        severity: common::severity_name(rule.severity),
        headline: filled(rule.headline, host, m.service),
        cause: text::replace_all(
            filled(rule.cause, host, m.service),
            "{window}"@,
            text::dec_int(rule.window_secs as int),
        ),
        actions: rule.actions,
        affected: affected_by(host, m.events),
        events: m.events,
    }
}

fn copy_events(v: &Vec<AgentEvent>) -> (r: Vec<AgentEvent>)
    ensures
        common::events(r@) == common::events(v@),
{
    let mut r: Vec<AgentEvent> = Vec::new();
    let mut i: usize = 0;
    while i < v.len()
        invariant
            i <= v@.len(),
            r@.len() == i,
            forall|j: int| 0 <= j < i ==> (#[trigger] r@[j])@ == v@[j]@,
        decreases v@.len() - i,
    {
        r.push(v[i].copy());
        i = i + 1;
    }
    assert(common::events(r@) =~= common::events(v@));
    r
}

/// Assemble an incident draft from a rule match.
pub fn assemble(rule: &Rule, m: &RuleMatch, host: &str) -> (r: IncidentDraft)
    ensures
        r@ == assembled(rule@, m@, host@),
{
    let ghost all = common::events(m.events@);
    let mut affected = TextSet::new();
    let _new = affected.insert(host);
    let mut i: usize = 0;
    assert(affected@ =~= affected_by(host@, all.take(0)));
    while i < m.events.len()
        invariant
            i <= m.events@.len(),
            all == common::events(m.events@),
            affected@ == affected_by(host@, all.take(i as int)),
        decreases m.events@.len() - i,
    {
        proof {
            seqs::lemma_take_step(all, i as int);
            assert(all[i as int] == m.events@[i as int]@);
        }
        let _new = affected.insert(m.events[i].key.as_str());
        i = i + 1;
    }
    assert(all.take(m.events@.len() as int) =~= all);
    let service: Option<&str> = match &m.service {
        Some(s) => Some(s.as_str()),
        None => None,
    };
    let cause = fill_template(rule.cause.as_str(), host, service);
    proof {
        reveal_strlit("{window}");
    }
    let draft = IncidentDraft {
        key: text::owned("rule:").concat(rule.id.as_str()).concat(":").concat(host),
        host_id: text::owned(host),
        severity: text::owned(common::severity_text(rule.severity)),
        headline: fill_template(rule.headline.as_str(), host, service),
        cause: text::replaced(cause.as_str(), "{window}", text::dec_i64(rule.window_secs).as_str()),
        actions: text::copied(&rule.actions),
        affected: affected.items,
        events: copy_events(&m.events),
    };
    assert(draft@ =~= assembled(rule@, m@, host@));
    draft
}

/// The incident of a single event; none for an Info event.
pub open spec fn single(e: EventView, host: Seq<char>) -> Option<DraftView> {
    let kind = common::kind_name(e.kind);
    if e.severity is Info {
        None
    } else {
        Some(
            DraftView {
                key: "event:"@ + kind + ":"@ + host + ":"@ + e.key,
                host_id: host,
                severity: common::severity_name(e.severity),
                headline: kind + ": "@ + e.key,
                cause: seq![],
                actions: seq![],
                affected: seq![host, e.key],
                events: seq![e],
            },
        )
    }
}

/// The incidents of single events.
pub open spec fn fallback_drafts(evs: Seq<EventView>, host: Seq<char>) -> Seq<DraftView> {
    seqs::picked(evs, |e: EventView| single(e, host))
}

fn single_draft(e: &AgentEvent, host: &str) -> (r: IncidentDraft)
    requires
        !(e.severity is Info),
    ensures
        single(e@, host@) == Some(r@),
{
    let kind = common::kind_text(e.kind);
    let mut affected: Vec<String> = Vec::new();
    affected.push(text::owned(host));
    affected.push(e.key.clone());
    let mut events: Vec<AgentEvent> = Vec::new();
    events.push(e.copy());
    let r = IncidentDraft {
        key: text::owned("event:").concat(kind).concat(":").concat(host).concat(":").concat(
            e.key.as_str(),
        ),
        host_id: text::owned(host),
        severity: text::owned(common::severity_text(e.severity)),
        headline: text::owned(kind).concat(": ").concat(e.key.as_str()),
        cause: String::new(),
        actions: Vec::new(),
        affected,
        events,
    };
    assert(r@.actions =~= seq![]);
    assert(r@.affected =~= seq![host@, e.key@]);
    assert(r@.events =~= seq![e@]);
    assert(r@ =~= single(e@, host@)->0);
    r
}

/// Fallback: unmatched Warning+ events become single-event incidents.
pub fn fallback_incidents(events: &Vec<AgentEvent>, _now: i64, host: &str) -> (r: Vec<
    IncidentDraft,
>)
    ensures
        draft_views(r@) == fallback_drafts(common::events(events@), host@),
{
    let ghost all = common::events(events@);
    let ghost h = host@;
    let ghost f = |e: EventView| single(e, h);
    let mut out: Vec<IncidentDraft> = Vec::new();
    let mut i: usize = 0;
    assert(draft_views(out@) =~= seqs::picked(all.take(0), f));
    while i < events.len()
        invariant
            i <= events@.len(),
            all == common::events(events@),
            h == host@,
            f == (|e: EventView| single(e, h)),
            draft_views(out@) == seqs::picked(all.take(i as int), f),
        decreases events@.len() - i,
    {
        proof {
            seqs::lemma_take_step(all, i as int);
            assert(all[i as int] == events@[i as int]@);
        }
        if events[i].severity != Severity::Info {
            let ghost before = draft_views(out@);
            let d = single_draft(&events[i], host);
            let ghost dv = d@;
            out.push(d);
            assert(draft_views(out@) =~= before.push(dv));
        }
        i = i + 1;
    }
    assert(all.take(events@.len() as int) =~= all);
    out
}

/// Every single-event incident is that of a given event above Info, and every
/// such event has one.
pub proof fn law_fallback_covers_warnings(evs: Seq<EventView>, host: Seq<char>, e: EventView)
    ensures
        forall|d: DraftView| #[trigger]
            fallback_drafts(evs, host).contains(d) <==> exists|x: EventView| #[trigger]
                evs.contains(x) && single(x, host) == Some(d),
        evs.contains(e) && !(e.severity is Info) ==> exists|d: DraftView| #[trigger]
            fallback_drafts(evs, host).contains(d) && d.events == seq![e],
{
    let f = |x: EventView| single(x, host);
    assert forall|d: DraftView| #[trigger]
        fallback_drafts(evs, host).contains(d) <==> exists|x: EventView| #[trigger]
            evs.contains(x) && single(x, host) == Some(d) by {
        seqs::lemma_picked(evs, f, d);
        assert(fallback_drafts(evs, host) == seqs::picked(evs, f));
        if fallback_drafts(evs, host).contains(d) {
            let i = choose|i: int| 0 <= i < evs.len() && f(#[trigger] evs[i]) == Some(d);
            assert(evs.contains(evs[i]) && single(evs[i], host) == Some(d));
        }
        if exists|x: EventView| #[trigger] evs.contains(x) && single(x, host) == Some(d) {
            let x = choose|x: EventView| #[trigger] evs.contains(x) && single(x, host) == Some(d);
            let i = choose|i: int| 0 <= i < evs.len() && evs[i] == x;
            assert(f(evs[i]) == Some(d));
        }
    }
    if evs.contains(e) && !(e.severity is Info) {
        assert(fallback_drafts(evs, host).contains(single(e, host)->0));
    }
}

/// A draft and the cooldown of the rule that made it.
#[derive(Debug)]
pub struct PlannedIncident {
    pub draft: IncidentDraft,
    pub cooldown_secs: i64,
}

/// What a `PlannedIncident` says.
#[verifier::ext_equal]
pub struct PlannedView {
    pub draft: DraftView,
    pub cooldown_secs: i64,
}

impl View for PlannedIncident {
    type V = PlannedView;

    open spec fn view(&self) -> PlannedView {
        PlannedView { draft: self.draft@, cooldown_secs: self.cooldown_secs }
    }
}

/// What each planned incident of a list says.
pub open spec fn planned_views(v: Seq<PlannedIncident>) -> Seq<PlannedView> {
    v.map_values(|p: PlannedIncident| p@)
}

/// What a scan has made of the events so far, and which it has absorbed.
#[verifier::ext_equal]
pub struct ScanView {
    pub planned: Seq<PlannedView>,
    pub absorbed: Seq<Seq<char>>,
}

/// The absorbed ids with those of more events.
pub open spec fn with_ids(ids: Seq<Seq<char>>, evs: Seq<EventView>) -> Seq<Seq<char>>
    decreases evs.len(),
{
    if evs.len() == 0 {
        ids
    } else {
        table::with_item(with_ids(ids, evs.drop_last()), evs.last().id)
    }
}

/// The rules in turn, each on what the earlier ones left.
pub open spec fn scan_rules(
    rules: Seq<RuleView>,
    evs: Seq<EventView>,
    now: int,
    host: Seq<char>,
) -> ScanView
    decreases rules.len(),
{
    if rules.len() == 0 {
        ScanView { planned: seq![], absorbed: seq![] }
    } else {
        let before = scan_rules(rules.drop_last(), evs, now, host);
        let rule = rules.last();
        match rule_match(rule, evs, now, before.absorbed) {
            Some(m) => ScanView {
                planned: before.planned.push(
                    PlannedView {
                        draft: assembled(rule, m, host),
                        cooldown_secs: rule.cooldown_secs,
                    },
                ),
                absorbed: with_ids(before.absorbed, m.events),
            },
            None => before,
        }
    }
}

/// The first fallback rule.
pub open spec fn fallback_in(rules: Seq<RuleView>) -> Option<RuleView>
    decreases rules.len(),
{
    if rules.len() == 0 {
        None
    } else if rules[0].is_fallback {
        Some(rules[0])
    } else {
        fallback_in(rules.skip(1))
    }
}

/// Drafts with one cooldown.
pub open spec fn with_cooldown(drafts: Seq<DraftView>, cooldown_secs: i64) -> Seq<PlannedView> {
    drafts.map_values(|d: DraftView| PlannedView { draft: d, cooldown_secs })
}

/// What the fallback rule makes of what the other rules left in its window.
pub open spec fn left_over(
    rules: Seq<RuleView>,
    evs: Seq<EventView>,
    now: int,
    host: Seq<char>,
    absorbed: Seq<Seq<char>>,
) -> Seq<PlannedView> {
    match fallback_in(rules) {
        Some(fb) => with_cooldown(
            fallback_drafts(window_events(fb, evs, now, absorbed), host),
            fb.cooldown_secs,
        ),
        None => seq![],
    }
}

/// The incidents of a host's events: those of the rules in turn, then the
/// single-event incidents of what is left.
pub open spec fn scan(
    rules: Seq<RuleView>,
    evs: Seq<EventView>,
    now: int,
    host: Seq<char>,
) -> Seq<PlannedView> {
    let s = scan_rules(rules, evs, now, host);
    s.planned + left_over(rules, evs, now, host, s.absorbed)
}

fn absorb(ids: &mut TextSet, events: &Vec<AgentEvent>)
    ensures
        final(ids)@ == with_ids(old(ids)@, common::events(events@)),
{
    let ghost all = common::events(events@);
    let ghost start = ids@;
    let mut i: usize = 0;
    assert(ids@ =~= with_ids(start, all.take(0)));
    while i < events.len()
        invariant
            i <= events@.len(),
            all == common::events(events@),
            ids@ == with_ids(start, all.take(i as int)),
        decreases events@.len() - i,
    {
        proof {
            seqs::lemma_take_step(all, i as int);
            assert(all[i as int] == events@[i as int]@);
        }
        let _new = ids.insert(events[i].id.as_str());
        i = i + 1;
    }
    assert(all.take(events@.len() as int) =~= all);
}

fn fallback_index(rules: &Vec<Rule>) -> (r: Option<usize>)
    ensures
        match r {
            Some(i) => i < rules@.len() && fallback_in(rule_views(rules@)) == Some(
                rules@[i as int]@,
            ),
            None => fallback_in(rule_views(rules@)) is None,
        },
{
    let ghost all = rule_views(rules@);
    let mut i: usize = 0;
    assert(all.skip(0) =~= all);
    while i < rules.len()
        invariant
            i <= rules@.len(),
            all == rule_views(rules@),
            fallback_in(all.skip(i as int)) == fallback_in(all),
        decreases rules@.len() - i,
    {
        assert(all.skip(i as int)[0] == rules@[i as int]@);
        if rules[i].is_fallback {
            return Some(i);
        }
        assert(all.skip(i as int).skip(1) =~= all.skip(i + 1));
        i = i + 1;
    }
    None
}

/// One scan of a host's window events: each rule in turn takes what it
/// matches from what the earlier ones left, and what no rule takes becomes
/// single-event incidents.
pub fn scan_host(rules: &Vec<Rule>, events: &Vec<AgentEvent>, now: i64, host: &str) -> (r: Vec<
    PlannedIncident,
>)
    ensures
        planned_views(r@) == scan(
            rule_views(rules@),
            common::events(events@),
            now as int,
            host@,
        ),
{
    let ghost all = rule_views(rules@);
    let ghost evs = common::events(events@);
    let ghost (n, h) = (now as int, host@);
    let mut out: Vec<PlannedIncident> = Vec::new();
    let mut absorbed = TextSet::new();
    let mut i: usize = 0;
    assert(planned_views(out@) =~= scan_rules(all.take(0), evs, n, h).planned);
    while i < rules.len()
        invariant
            i <= rules@.len(),
            all == rule_views(rules@),
            evs == common::events(events@),
            n == now as int,
            h == host@,
            planned_views(out@) == scan_rules(all.take(i as int), evs, n, h).planned,
            absorbed@ == scan_rules(all.take(i as int), evs, n, h).absorbed,
        decreases rules@.len() - i,
    {
        proof {
            seqs::lemma_take_step(all, i as int);
            assert(all[i as int] == rules@[i as int]@);
        }
        let rule = &rules[i];
        match match_rule(rule, events, now, host, &absorbed) {
            Some(m) => {
                let ghost before = planned_views(out@);
                let draft = assemble(rule, &m, host);
                absorb(&mut absorbed, &m.events);
                let p = PlannedIncident { draft, cooldown_secs: rule.cooldown_secs };
                let ghost pv = p@;
                out.push(p);
                assert(planned_views(out@) =~= before.push(pv));
            },
            None => {},
        }
        i = i + 1;
    }
    assert(all.take(rules@.len() as int) =~= all);
    let ghost ruled = planned_views(out@);
    match fallback_index(rules) {
        None => {
            assert(ruled + seq![] =~= ruled);
        },
        Some(k) => {
            let rest = usable(&rules[k], events, now, &absorbed);
            let mut drafts = fallback_incidents(&rest, now, host);
            let cooldown_secs: i64 = rules[k].cooldown_secs;
            let ghost all_drafts = draft_views(drafts@);
            let ghost tail = with_cooldown(all_drafts, cooldown_secs);
            assert(ruled + tail.take(0) =~= ruled);
            let mut j: usize = 0;
            let total: usize = drafts.len();
            while j < total
                invariant
                    j <= total,
                    total == all_drafts.len(),
                    drafts@.len() == total - j,
                    draft_views(drafts@) == all_drafts.skip(j as int),
                    tail == with_cooldown(all_drafts, cooldown_secs),
                    planned_views(out@) == ruled + tail.take(j as int),
                decreases total - j,
            {
                let ghost before = planned_views(out@);
                assert(draft_views(drafts@)[0] == all_drafts[j as int]);
                let ghost held = drafts@;
                let draft = drafts.remove(0);
                assert forall|k: int| 0 <= k < drafts@.len() implies (#[trigger] drafts@[k])@
                    == all_drafts[j + 1 + k] by {
                    assert(drafts@[k] == held[k + 1]);
                    assert(draft_views(held)[k + 1] == all_drafts.skip(j as int)[k + 1]);
                }
                assert(draft_views(drafts@) =~= all_drafts.skip(j + 1));
                out.push(PlannedIncident { draft, cooldown_secs });
                assert(planned_views(out@) =~= before.push(tail[j as int]));
                assert(ruled + tail.take(j + 1) =~= (ruled + tail.take(j as int)).push(
                    tail[j as int],
                ));
                j = j + 1;
            }
            assert(tail.take(total as int) =~= tail);
        },
    }
    out
}

/// The hosts of events, in the order of their first coming.
pub open spec fn hosts_of(evs: Seq<EventView>) -> Seq<Seq<char>>
    decreases evs.len(),
{
    if evs.len() == 0 {
        seq![]
    } else {
        table::with_item(hosts_of(evs.drop_last()), evs.last().host_id)
    }
}

/// The events of a host.
pub open spec fn of_host(evs: Seq<EventView>, host: Seq<char>) -> Seq<EventView> {
    seqs::kept(evs, |e: EventView| e.host_id == host)
}

/// The incidents of hosts in turn, each from its own events.
pub open spec fn plans(
    rules: Seq<RuleView>,
    evs: Seq<EventView>,
    hosts: Seq<Seq<char>>,
    now: int,
) -> Seq<PlannedView>
    decreases hosts.len(),
{
    if hosts.len() == 0 {
        seq![]
    } else {
        let host = hosts.last();
        plans(rules, evs, hosts.drop_last(), now) + scan(rules, of_host(evs, host), now, host)
    }
}

fn host_events(events: &Vec<AgentEvent>, host: &str) -> (r: Vec<AgentEvent>)
    ensures
        common::events(r@) == of_host(common::events(events@), host@),
{
    let ghost all = common::events(events@);
    let ghost h = host@;
    let ghost f = |e: EventView| e.host_id == h;
    let mut r: Vec<AgentEvent> = Vec::new();
    let mut i: usize = 0;
    assert(common::events(r@) =~= seqs::kept(all.take(0), f));
    while i < events.len()
        invariant
            i <= events@.len(),
            all == common::events(events@),
            h == host@,
            f == (|e: EventView| e.host_id == h),
            common::events(r@) == seqs::kept(all.take(i as int), f),
        decreases events@.len() - i,
    {
        proof {
            seqs::lemma_take_step(all, i as int);
            assert(all[i as int] == events@[i as int]@);
        }
        if text::same(events[i].host_id.as_str(), host) {
            let ghost before = r@;
            let e = events[i].copy();
            let ghost ev = e@;
            r.push(e);
            assert(common::events(r@) =~= common::events(before).push(ev));
        }
        i = i + 1;
    }
    assert(all.take(events@.len() as int) =~= all);
    r
}

/// One scan of the window events of all hosts: the incidents of each host from
/// its own events, the hosts in the order of their first coming.
pub fn plan_scan(rules: &Vec<Rule>, events: &Vec<AgentEvent>, now: i64) -> (r: Vec<
    PlannedIncident,
>)
    ensures
        planned_views(r@) == plans(
            rule_views(rules@),
            common::events(events@),
            hosts_of(common::events(events@)),
            now as int,
        ),
{
    let ghost all = rule_views(rules@);
    let ghost evs = common::events(events@);
    let ghost n = now as int;
    let mut hosts = TextSet::new();
    let mut i: usize = 0;
    assert(hosts@ =~= hosts_of(evs.take(0)));
    while i < events.len()
        invariant
            i <= events@.len(),
            evs == common::events(events@),
            hosts@ == hosts_of(evs.take(i as int)),
        decreases events@.len() - i,
    {
        proof {
            seqs::lemma_take_step(evs, i as int);
            assert(evs[i as int] == events@[i as int]@);
        }
        let _new = hosts.insert(events[i].host_id.as_str());
        i = i + 1;
    }
    assert(evs.take(events@.len() as int) =~= evs);
    let mut out: Vec<PlannedIncident> = Vec::new();
    let mut j: usize = 0;
    assert(planned_views(out@) =~= plans(all, evs, hosts@.take(0), n));
    while j < hosts.items.len()
        invariant
            j <= hosts.items@.len(),
            hosts@.len() == hosts.items@.len(),
            all == rule_views(rules@),
            evs == common::events(events@),
            n == now as int,
            planned_views(out@) == plans(all, evs, hosts@.take(j as int), n),
        decreases hosts.items@.len() - j,
    {
        proof {
            seqs::lemma_take_step(hosts@, j as int);
            assert(hosts@[j as int] == hosts.items@[j as int]@);
        }
        let host = hosts.items[j].as_str();
        let own = host_events(events, host);
        let mut more = scan_host(rules, &own, now, host);
        let ghost before = out@;
        let ghost added = more@;
        out.append(&mut more);
        assert(planned_views(out@) =~= planned_views(before) + planned_views(added));
        j = j + 1;
    }
    assert(hosts@.take(hosts.items@.len() as int) =~= hosts@);
    out
}

/// The longest window of the rules; none without rules.
pub open spec fn longest_window(rules: Seq<RuleView>) -> int
    decreases rules.len(),
{
    if rules.len() == 0 {
        0
    } else if rules.len() == 1 {
        rules[0].window_secs as int
    } else if rules.last().window_secs > longest_window(rules.drop_last()) {
        rules.last().window_secs as int
    } else {
        longest_window(rules.drop_last())
    }
}

/// The nearest time that an `i64` can hold.
pub open spec fn nearest(t: int) -> int {
    if t < i64::MIN {
        i64::MIN as int
    } else if t > i64::MAX {
        i64::MAX as int
    } else {
        t
    }
}

/// The time from which on a scan at `now` needs the events: the start of the
/// longest window.
pub fn scan_since(rules: &Vec<Rule>, now: i64) -> (r: i64)
    ensures
        r == nearest(now - longest_window(rule_views(rules@)) * 1000),
{
    let ghost all = rule_views(rules@);
    if rules.len() == 0 {
        return now;
    }
    let mut longest: i64 = rules[0].window_secs;
    let mut i: usize = 1;
    assert(all.take(1)[0] == rules@[0]@);
    while i < rules.len()
        invariant
            1 <= i <= rules@.len(),
            all == rule_views(rules@),
            longest == longest_window(all.take(i as int)),
        decreases rules@.len() - i,
    {
        proof {
            seqs::lemma_take_step(all, i as int);
            assert(all[i as int] == rules@[i as int]@);
        }
        if rules[i].window_secs > longest {
            longest = rules[i].window_secs;
        }
        i = i + 1;
    }
    assert(all.take(rules@.len() as int) =~= all);
    let start: i128 = now as i128 - (longest as i128) * 1000;
    if start < i64::MIN as i128 {
        i64::MIN
    } else if start > i64::MAX as i128 {
        i64::MAX
    } else {
        start as i64
    }
}

/// No window is longer than the longest.
proof fn lemma_longest(rules: Seq<RuleView>, i: int)
    requires
        0 <= i < rules.len(),
    ensures
        rules[i].window_secs <= longest_window(rules),
    decreases rules.len(),
{
    if rules.len() > 1 && i < rules.len() - 1 {
        lemma_longest(rules.drop_last(), i);
    }
}

/// What is older than the start of the longest window is in no rule's window:
/// a scan that does not read it misses nothing.
pub proof fn law_older_events_are_in_no_window(
    rules: Seq<RuleView>,
    i: int,
    e: EventView,
    now: int,
    exclude: Seq<Seq<char>>,
)
    requires
        0 <= i < rules.len(),
        e.ts < nearest(now - longest_window(rules) * 1000),
    ensures
        !in_window(rules[i], e, now, exclude),
{
    lemma_longest(rules, i);
}

/// Whether a draft holds an event with an id.
pub open spec fn uses(d: DraftView, id: Seq<char>) -> bool {
    exists|k: int| 0 <= k < d.events.len() && (#[trigger] d.events[k]).id == id
}

/// No two of the planned incidents share an event.
pub open spec fn apart(planned: Seq<PlannedView>) -> bool {
    forall|i: int, j: int, id: Seq<char>|
        0 <= i < j < planned.len() ==> !(#[trigger] uses(planned[i].draft, id) && #[trigger] uses(
            planned[j].draft,
            id,
        ))
}

/// Different events have different ids.
pub open spec fn ids_differ(evs: Seq<EventView>) -> bool {
    forall|i: int, j: int| 0 <= i < j < evs.len() ==> #[trigger] evs[i].id != #[trigger] evs[j].id
}

proof fn lemma_with_ids(ids: Seq<Seq<char>>, evs: Seq<EventView>)
    ensures
        forall|x: Seq<char>| ids.contains(x) ==> #[trigger] with_ids(ids, evs).contains(x),
        forall|k: int|
            0 <= k < evs.len() ==> with_ids(ids, evs).contains((#[trigger] evs[k]).id),
    decreases evs.len(),
{
    if evs.len() > 0 {
        let init = evs.drop_last();
        lemma_with_ids(ids, init);
        table::law_with_item(with_ids(ids, init), evs.last().id);
        assert forall|k: int| 0 <= k < evs.len() implies with_ids(ids, evs).contains(
            (#[trigger] evs[k]).id,
        ) by {
            if k < init.len() {
                assert(init[k] == evs[k]);
                assert(with_ids(ids, init).contains(init[k].id));
            }
        }
    }
}

proof fn lemma_scan_rules(rules: Seq<RuleView>, evs: Seq<EventView>, now: int, host: Seq<char>)
    ensures
        apart(scan_rules(rules, evs, now, host).planned),
        forall|i: int, id: Seq<char>|
            0 <= i < scan_rules(rules, evs, now, host).planned.len() && #[trigger] uses(
                scan_rules(rules, evs, now, host).planned[i].draft,
                id,
            ) ==> scan_rules(rules, evs, now, host).absorbed.contains(id),
    decreases rules.len(),
{
    let s = scan_rules(rules, evs, now, host);
    if rules.len() > 0 {
        let before = scan_rules(rules.drop_last(), evs, now, host);
        lemma_scan_rules(rules.drop_last(), evs, now, host);
        let rule = rules.last();
        if let Some(m) = rule_match(rule, evs, now, before.absorbed) {
            law_match_uses_the_window(rule, evs, now, before.absorbed);
            lemma_with_ids(before.absorbed, m.events);
            let n = before.planned.len() as int;
            assert forall|id: Seq<char>| #[trigger] uses(s.planned[n].draft, id) implies
                !before.absorbed.contains(id) && s.absorbed.contains(id) by {
                let k = choose|k: int|
                    0 <= k < m.events.len() && (#[trigger] m.events[k]).id == id;
                assert(m.events.contains(m.events[k]));
            }
            assert forall|i: int, id: Seq<char>|
                0 <= i < s.planned.len() && #[trigger] uses(s.planned[i].draft, id) implies
                s.absorbed.contains(id) by {
                if i < n {
                    assert(s.planned[i] == before.planned[i]);
                }
            }
            assert forall|i: int, j: int, id: Seq<char>|
                0 <= i < j < s.planned.len() implies !(#[trigger] uses(s.planned[i].draft, id)
                && #[trigger] uses(s.planned[j].draft, id)) by {
                assert(s.planned[i] == before.planned[i]);
                if j < n {
                    assert(s.planned[j] == before.planned[j]);
                }
            }
        }
    }
}

proof fn lemma_kept_ids_differ(evs: Seq<EventView>, p: spec_fn(EventView) -> bool)
    requires
        ids_differ(evs),
    ensures
        ids_differ(seqs::kept(evs, p)),
    decreases evs.len(),
{
    if evs.len() > 0 {
        let init = evs.drop_last();
        assert(ids_differ(init)) by {
            assert forall|i: int, j: int| 0 <= i < j < init.len() implies #[trigger] init[i].id
                != #[trigger] init[j].id by {
                assert(init[i] == evs[i] && init[j] == evs[j]);
            }
        }
        lemma_kept_ids_differ(init, p);
        seqs::lemma_kept(init, p);
        let k = seqs::kept(init, p);
        if p(evs.last()) {
            assert forall|i: int| 0 <= i < k.len() implies #[trigger] k[i].id != evs.last().id by {
                assert(k.contains(k[i]));
                let j = choose|j: int| 0 <= j < init.len() && init[j] == k[i];
                assert(evs[j].id != evs[evs.len() - 1].id);
            }
        }
    }
}

proof fn lemma_fallback_apart(evs: Seq<EventView>, host: Seq<char>)
    requires
        ids_differ(evs),
    ensures
        forall|i: int|
            #![trigger fallback_drafts(evs, host)[i]]
            0 <= i < fallback_drafts(evs, host).len() ==> {
                let d = fallback_drafts(evs, host)[i];
                d.events.len() == 1 && evs.contains(d.events[0])
            },
        forall|i: int, j: int|
            0 <= i < j < fallback_drafts(evs, host).len() ==> #[trigger] fallback_drafts(
                evs,
                host,
            )[i].events[0].id != #[trigger] fallback_drafts(evs, host)[j].events[0].id,
    decreases evs.len(),
{
    if evs.len() > 0 {
        let init = evs.drop_last();
        assert(ids_differ(init)) by {
            assert forall|i: int, j: int| 0 <= i < j < init.len() implies #[trigger] init[i].id
                != #[trigger] init[j].id by {
                assert(init[i] == evs[i] && init[j] == evs[j]);
            }
        }
        lemma_fallback_apart(init, host);
        let old_drafts = fallback_drafts(init, host);
        let drafts = fallback_drafts(evs, host);
        let n = old_drafts.len() as int;
        assert(evs[evs.len() - 1] == evs.last());
        assert forall|i: int| 0 <= i < n implies evs.contains(
            (#[trigger] old_drafts[i]).events[0],
        ) && old_drafts[i].events[0].id != evs.last().id by {
            let e = old_drafts[i].events[0];
            let j = choose|j: int| 0 <= j < init.len() && init[j] == e;
            assert(evs[j] == e);
            assert(evs[j].id != evs[evs.len() - 1].id);
        }
        if single(evs.last(), host) is Some {
            assert(drafts == old_drafts.push(single(evs.last(), host)->0));
        } else {
            assert(drafts == old_drafts);
        }
    }
}

/// One event ends up in at most one incident of a scan.
pub proof fn law_one_event_one_incident(
    rules: Seq<RuleView>,
    evs: Seq<EventView>,
    now: int,
    host: Seq<char>,
)
    requires
        ids_differ(evs),
    ensures
        apart(scan(rules, evs, now, host)),
{
    let s = scan_rules(rules, evs, now, host);
    lemma_scan_rules(rules, evs, now, host);
    let all = scan(rules, evs, now, host);
    let n = s.planned.len() as int;
    match fallback_in(rules) {
        None => {
            assert(all =~= s.planned);
        },
        Some(fb) => {
            let p = |e: EventView| in_window(fb, e, now, s.absorbed);
            let rest = window_events(fb, evs, now, s.absorbed);
            assert(rest == seqs::kept(evs, p));
            seqs::lemma_kept(evs, p);
            lemma_kept_ids_differ(evs, p);
            lemma_fallback_apart(rest, host);
            let drafts = fallback_drafts(rest, host);
            assert forall|i: int, j: int, id: Seq<char>|
                0 <= i < j < all.len() implies !(#[trigger] uses(all[i].draft, id) && #[trigger] uses(
                all[j].draft,
                id,
            )) by {
                if j >= n {
                    let d = drafts[j - n];
                    assert(all[j].draft == d);
                    assert(rest.contains(d.events[0]));
                    assert(p(d.events[0]));
                    if i < n {
                        assert(all[i] == s.planned[i]);
                    } else {
                        assert(all[i].draft == drafts[i - n]);
                    }
                } else {
                    assert(all[i] == s.planned[i]);
                    assert(all[j] == s.planned[j]);
                }
            }
        },
    }
}

/// A rule that was resolved less than its cooldown ago stays closed.
pub open spec fn cooling(cooldown_secs: int, resolved_at: Option<int>, now: int) -> bool {
    match resolved_at {
        Some(t) => now - t < cooldown_secs * 1000,
        None => false,
    }
}

/// Whether a resolved incident's rule may not reopen yet.
pub fn in_cooldown(cooldown_secs: i64, resolved_at: Option<i64>, now: i64) -> (r: bool)
    ensures
        r == cooling(
            cooldown_secs as int,
            match resolved_at {
                Some(t) => Some(t as int),
                None => None,
            },
            now as int,
        ),
{
    match resolved_at {
        Some(t) => now as i128 - (t as i128) < cooldown_secs as i128 * 1000,
        None => false,
    }
}

/// A draft tells of its match: its key names rule and host, it has the rule's
/// severity and actions and the match's events, and it affects the host and the
/// subjects of the events, each once, and nothing else.
pub proof fn law_drafts_tell_their_match(rule: RuleView, m: MatchView, host: Seq<char>)
    ensures
        ({
            let d = assembled(rule, m, host);
            &&& d.key == "rule:"@ + rule.id + ":"@ + host
            &&& d.host_id == host
            &&& d.severity == (match rule.severity {
                Severity::Info => "Info"@,
                Severity::Warning => "Warning"@,
                Severity::Critical => "Critical"@,
            })
            &&& d.actions == rule.actions
            &&& d.events == m.events
            &&& d.affected.len() > 0 && d.affected[0] == host
            &&& d.affected.no_duplicates()
            &&& forall|t: Seq<char>| #[trigger]
                d.affected.contains(t) <==> (t == host || exists|i: int|
                    0 <= i < m.events.len() && (#[trigger] m.events[i]).key == t)
        }),
{
    lemma_affected_by(host, m.events);
}

proof fn lemma_affected_by(host: Seq<char>, evs: Seq<EventView>)
    ensures
        affected_by(host, evs).len() > 0,
        affected_by(host, evs)[0] == host,
        affected_by(host, evs).no_duplicates(),
        forall|t: Seq<char>| #[trigger]
            affected_by(host, evs).contains(t) <==> (t == host || exists|i: int|
                0 <= i < evs.len() && (#[trigger] evs[i]).key == t),
    decreases evs.len(),
{
    let all = affected_by(host, evs);
    if evs.len() > 0 {
        let init = evs.drop_last();
        let before = affected_by(host, init);
        lemma_affected_by(host, init);
        table::law_with_item(before, evs.last().key);
        assert(evs.last() == evs[evs.len() - 1]);
        assert forall|t: Seq<char>| #[trigger] all.contains(t) <==> (t == host || exists|i: int|
            0 <= i < evs.len() && (#[trigger] evs[i]).key == t) by {
            if before.contains(t) && t != host {
                let i = choose|i: int| 0 <= i < init.len() && (#[trigger] init[i]).key == t;
                assert(evs[i].key == t);
            }
            if exists|i: int| 0 <= i < evs.len() && (#[trigger] evs[i]).key == t {
                let i = choose|i: int| 0 <= i < evs.len() && (#[trigger] evs[i]).key == t;
                if i < init.len() {
                    assert(init[i].key == t);
                }
            }
        }
    } else {
        assert(all.contains(host)) by {
            assert(all[0] == host);
        }
    }
}

/// The slots of a template are filled in their places: the host, and the
/// service or "a service" where none is known.
pub proof fn law_templates_are_filled(
    a: Seq<char>,
    b: Seq<char>,
    host: Seq<char>,
    service: Option<Seq<char>>,
)
    requires
        !a.contains('{'),
        !b.contains('{'),
        !host.contains('{'),
    ensures
        filled(a, host, service) == a,
        filled(a + "{host}"@ + b, host, service) == a + host + b,
        service matches Some(s) ==> filled(a + "{service}"@ + b, host, service) == a + s + b,
        service is None ==> filled(a + "{service}"@ + b, host, service) == a + "a service"@ + b,
{
    reveal_strlit("{host}");
    reveal_strlit("{service}");
    let name = match service {
        Some(s) => s,
        None => "a service"@,
    };
    text::law_nothing_to_replace(a, "{host}"@, host);
    text::law_nothing_to_replace(b, "{host}"@, host);
    text::law_nothing_to_replace(a, "{service}"@, name);
    text::law_nothing_to_replace(b, "{service}"@, name);
    text::law_replace_at_the_first(a, "{host}"@, b, host);
    let c = a + host + b;
    assert(!c.contains('{')) by {
        if c.contains('{') {
            let i = choose|i: int| 0 <= i < c.len() && c[i] == '{';
            if i < a.len() {
                assert(a[i] == '{');
            } else if i < a.len() + host.len() {
                assert(host[i - a.len()] == '{');
            } else {
                assert(b[i - a.len() - host.len()] == '{');
            }
        }
    }
    text::law_nothing_to_replace(c, "{service}"@, name);
    lemma_no_host_slot(a, b);
    text::law_replace_at_the_first(a, "{service}"@, b, name);
}

/// A template with a slot for the service has none for the host.
proof fn lemma_no_host_slot(a: Seq<char>, b: Seq<char>)
    requires
        !a.contains('{'),
        !b.contains('{'),
    ensures
        forall|host: Seq<char>|
            #[trigger] text::replace_all(a + "{service}"@ + b, "{host}"@, host) == a + "{service}"@
                + b,
{
    reveal_strlit("{host}");
    reveal_strlit("{service}");
    let s = a + "{service}"@ + b;
    text::lemma_find_from(s, "{host}"@, 0);
    if text::find(s, "{host}"@) is Some {
        let i = text::find(s, "{host}"@)->0;
        let w = s.subrange(i, i + 6);
        assert(w == "{host}"@);
        assert(w[0] == s[i] && w[1] == s[i + 1]);
        assert(s[i] == '{' && s[i + 1] == 'h');
        if i < a.len() {
            assert(a[i] == '{');
        } else if i < a.len() + 9 {
            assert(s[i] == "{service}"@[i - a.len()]);
            assert(i == a.len());
            assert(s[i + 1] == "{service}"@[1]);
        } else {
            assert(b[i - a.len() - 9] == '{');
        }
    }
}

/// Single-event incidents are made of the events above Info, one of each, in
/// their order. Each is named after the event's kind, host and subject, and has
/// its severity.
pub proof fn law_single_events_are_told(evs: Seq<EventView>, host: Seq<char>)
    ensures
        ({
            let drafts = fallback_drafts(evs, host);
            let bad = evs.filter(|e: EventView| e.severity is Warning || e.severity is Critical);
            &&& drafts.len() == bad.len()
            &&& forall|i: int|
                0 <= i < bad.len() ==> (#[trigger] drafts[i]).events == seq![bad[i]]
                    && drafts[i].key == "event:"@ + common::kind_name(bad[i].kind) + ":"@ + host
                    + ":"@ + bad[i].key && drafts[i].headline == common::kind_name(bad[i].kind)
                    + ": "@ + bad[i].key && drafts[i].severity == (
                if bad[i].severity is Critical {
                    "Critical"@
                } else {
                    "Warning"@
                }) && drafts[i].host_id == host && drafts[i].affected == seq![host, bad[i].key]
        }),
    decreases evs.len(),
{
    reveal(Seq::filter);
    if evs.len() > 0 {
        law_single_events_are_told(evs.drop_last(), host);
    }
}

/// What rules plan stays when more rules follow.
proof fn lemma_more_rules(
    rules: Seq<RuleView>,
    evs: Seq<EventView>,
    now: int,
    host: Seq<char>,
    k: int,
)
    requires
        0 <= k <= rules.len(),
    ensures
        ({
            let a = scan_rules(rules.take(k), evs, now, host).planned;
            let b = scan_rules(rules, evs, now, host).planned;
            &&& a.len() <= b.len()
            &&& forall|i: int| 0 <= i < a.len() ==> #[trigger] b[i] == a[i]
        }),
    decreases rules.len(),
{
    if k < rules.len() {
        let init = rules.drop_last();
        assert(init.take(k) =~= rules.take(k));
        lemma_more_rules(init, evs, now, host, k);
        let a = scan_rules(rules.take(k), evs, now, host).planned;
        let b = scan_rules(rules, evs, now, host).planned;
        let c = scan_rules(init, evs, now, host).planned;
        assert forall|i: int| 0 <= i < a.len() implies #[trigger] b[i] == a[i] by {
            assert(c[i] == a[i]);
        }
    } else {
        assert(rules.take(k) =~= rules);
    }
}

/// Rules apply in their order: a rule that matches what the earlier ones have
/// left makes an incident of it. `taken` holds the ids of the events that the
/// earlier rules' incidents use.
pub proof fn law_rules_apply_in_order(
    rules: Seq<RuleView>,
    evs: Seq<EventView>,
    now: int,
    host: Seq<char>,
    k: int,
    taken: Seq<Seq<char>>,
)
    requires
        0 <= k < rules.len(),
        forall|id: Seq<char>| #[trigger]
            taken.contains(id) <==> exists|i: int|
                0 <= i < scan_rules(rules.take(k), evs, now, host).planned.len() && #[trigger] uses(
                    scan_rules(rules.take(k), evs, now, host).planned[i].draft,
                    id,
                ),
    ensures
        match rule_match(rules[k], evs, now, taken) {
            Some(m) => {
                let n = scan_rules(rules.take(k), evs, now, host).planned.len() as int;
                &&& n < scan(rules, evs, now, host).len()
                &&& scan(rules, evs, now, host)[n].draft == assembled(rules[k], m, host)
                &&& scan(rules, evs, now, host)[n].cooldown_secs == rules[k].cooldown_secs
            },
            None => scan_rules(rules.take(k + 1), evs, now, host).planned == scan_rules(
                rules.take(k),
                evs,
                now,
                host,
            ).planned,
        },
{
    let before = scan_rules(rules.take(k), evs, now, host);
    lemma_scan_rules(rules.take(k), evs, now, host);
    lemma_absorbed_is_used(rules.take(k), evs, now, host);
    assert forall|id: Seq<char>| taken.contains(id) == before.absorbed.contains(id) by {}
    lemma_same_exclusion(rules[k], evs, now, taken, before.absorbed);
    assert(rules.take(k + 1).drop_last() =~= rules.take(k));
    assert(rules.take(k + 1).last() == rules[k]);
    lemma_more_rules(rules, evs, now, host, k + 1);
}

proof fn lemma_same_exclusion(
    rule: RuleView,
    evs: Seq<EventView>,
    now: int,
    x: Seq<Seq<char>>,
    y: Seq<Seq<char>>,
)
    requires
        forall|id: Seq<char>| #[trigger] x.contains(id) == y.contains(id),
    ensures
        rule_match(rule, evs, now, x) == rule_match(rule, evs, now, y),
{
    let p = |e: EventView| in_window(rule, e, now, x);
    let q = |e: EventView| in_window(rule, e, now, y);
    seqs::lemma_kept_is_filter(evs, p, p);
    seqs::lemma_kept_is_filter(evs, q, p);
}

/// Only events of planned incidents are absorbed.
proof fn lemma_absorbed_is_used(
    rules: Seq<RuleView>,
    evs: Seq<EventView>,
    now: int,
    host: Seq<char>,
)
    ensures
        forall|id: Seq<char>| #[trigger]
            scan_rules(rules, evs, now, host).absorbed.contains(id) ==> exists|i: int|
                0 <= i < scan_rules(rules, evs, now, host).planned.len() && #[trigger] uses(
                    scan_rules(rules, evs, now, host).planned[i].draft,
                    id,
                ),
    decreases rules.len(),
{
    let s = scan_rules(rules, evs, now, host);
    if rules.len() > 0 {
        let before = scan_rules(rules.drop_last(), evs, now, host);
        lemma_absorbed_is_used(rules.drop_last(), evs, now, host);
        if let Some(m) = rule_match(rules.last(), evs, now, before.absorbed) {
            let n = before.planned.len() as int;
            assert forall|id: Seq<char>| #[trigger] s.absorbed.contains(id) implies exists|i: int|
                0 <= i < s.planned.len() && #[trigger] uses(s.planned[i].draft, id) by {
                lemma_ids_come_from(before.absorbed, m.events, id);
                if before.absorbed.contains(id) {
                    let i = choose|i: int|
                        0 <= i < before.planned.len() && #[trigger] uses(
                            before.planned[i].draft,
                            id,
                        );
                    assert(uses(s.planned[i].draft, id));
                } else {
                    assert(s.planned[n].draft.events == m.events);
                    assert(uses(s.planned[n].draft, id));
                }
            }
        }
    }
}

proof fn lemma_ids_come_from(ids: Seq<Seq<char>>, evs: Seq<EventView>, id: Seq<char>)
    requires
        with_ids(ids, evs).contains(id),
    ensures
        ids.contains(id) || exists|k: int| 0 <= k < evs.len() && (#[trigger] evs[k]).id == id,
    decreases evs.len(),
{
    if evs.len() > 0 {
        let init = evs.drop_last();
        table::law_with_item(with_ids(ids, init), evs.last().id);
        if with_ids(ids, init).contains(id) {
            lemma_ids_come_from(ids, init, id);
            if !ids.contains(id) {
                let k = choose|k: int| 0 <= k < init.len() && (#[trigger] init[k]).id == id;
                assert(evs[k].id == id);
            }
        } else {
            assert(evs[evs.len() - 1].id == id);
        }
    }
}

/// The first rule that matches at all makes the first incident.
pub proof fn law_first_matching_rule_comes_first(
    rules: Seq<RuleView>,
    evs: Seq<EventView>,
    now: int,
    host: Seq<char>,
    k: int,
)
    requires
        0 <= k < rules.len(),
        forall|j: int|
            0 <= j < k ==> rule_match(#[trigger] rules[j], evs, now, seq![]) is None,
        rule_match(rules[k], evs, now, seq![]) is Some,
    ensures
        scan(rules, evs, now, host).len() > 0,
        scan(rules, evs, now, host)[0].draft == assembled(
            rules[k],
            rule_match(rules[k], evs, now, seq![])->0,
            host,
        ),
        scan(rules, evs, now, host)[0].cooldown_secs == rules[k].cooldown_secs,
{
    lemma_no_match_no_plan(rules.take(k), evs, now, host);
    law_rules_apply_in_order(rules, evs, now, host, k, seq![]);
}

proof fn lemma_no_match_no_plan(
    rules: Seq<RuleView>,
    evs: Seq<EventView>,
    now: int,
    host: Seq<char>,
)
    requires
        forall|j: int|
            0 <= j < rules.len() ==> rule_match(#[trigger] rules[j], evs, now, seq![]) is None,
    ensures
        scan_rules(rules, evs, now, host).planned.len() == 0,
        scan_rules(rules, evs, now, host).absorbed == Seq::<Seq<char>>::empty(),
    decreases rules.len(),
{
    if rules.len() > 0 {
        let init = rules.drop_last();
        assert forall|j: int| 0 <= j < init.len() implies rule_match(
            #[trigger] init[j],
            evs,
            now,
            seq![],
        ) is None by {
            assert(init[j] == rules[j]);
        }
        lemma_no_match_no_plan(init, evs, now, host);
        assert(rules.last() == rules[rules.len() - 1]);
    }
}

/// An event of a kind within the last five minutes.
pub open spec fn just_seen(evs: Seq<EventView>, kind: EventKind, now: int) -> bool {
    exists|i: int|
        0 <= i < evs.len() && (#[trigger] evs[i]).kind == kind && now - 300_000 <= evs[i].ts <= now
}

/// With the shipped rules, what happened on a host in the last five minutes is
/// one critical incident: an outage after a change, where a service failed and
/// a change, a login, sudo, a restart, a cpu spike or the loss of the host came
/// with it; else an attack, where an episode of failed logins came with failed
/// logins; else root access; else an unreachable host.
pub proof fn law_shipped_rules_tell_what_happened(
    evs: Seq<EventView>,
    now: int,
    host: Seq<char>,
)
    ensures
        ({
            let outage = just_seen(evs, EventKind::ServiceFailed, now) && (just_seen(
                evs,
                EventKind::FileChanged,
                now,
            ) || just_seen(evs, EventKind::SshLogin, now) || just_seen(
                evs,
                EventKind::SudoUsed,
                now,
            ) || just_seen(evs, EventKind::ServiceRestarted, now) || just_seen(
                evs,
                EventKind::CpuSpike,
                now,
            ) || just_seen(evs, EventKind::HostUnreachable, now));
            let attack = just_seen(evs, EventKind::SshBruteForce, now) && just_seen(
                evs,
                EventKind::SshFailed,
                now,
            );
            let root = just_seen(evs, EventKind::RootLogin, now);
            let lost = just_seen(evs, EventKind::HostUnreachable, now);
            let all = scan(shipped_rules(), evs, now, host);
            &&& outage || attack || root || lost ==> all.len() > 0 && all[0].draft.severity
                == "Critical"@ && all[0].cooldown_secs == 600 && all[0].draft.host_id == host
            &&& outage ==> all[0].draft.key == "rule:"@ + "config_change_outage"@ + ":"@ + host
            &&& !outage && attack ==> all[0].draft.key == "rule:"@ + "ssh_bruteforce"@ + ":"@ + host
            &&& !outage && !attack && root ==> all[0].draft.key == "rule:"@ + "root_login"@ + ":"@
                + host
            &&& !outage && !attack && !root && lost ==> all[0].draft.key == "rule:"@
                + "server_unreachable"@ + ":"@ + host
            &&& !outage && !attack && !root && !lost ==> scan_rules(
                shipped_rules(),
                evs,
                now,
                host,
            ).planned.len() == 0
        }),
{
    let rules = shipped_rules();
    let none = Seq::<Seq<char>>::empty();
    lemma_shipped_match(rules[0], evs, now, EventKind::ServiceFailed);
    lemma_shipped_match(rules[1], evs, now, EventKind::SshBruteForce);
    lemma_shipped_match(rules[2], evs, now, EventKind::RootLogin);
    lemma_shipped_match(rules[3], evs, now, EventKind::HostUnreachable);
    assert(rule_match(rules[4], evs, now, none) is None);
    let s = rules[0].supporting;
    assert(s[0] is FileChanged && s[1] is SshLogin && s[2] is SudoUsed && s[3] is ServiceRestarted
        && s[4] is CpuSpike && s[5] is HostUnreachable && s.len() == 6);
    assert(rules[1].supporting[0] is SshFailed);
    let m0 = rule_match(rules[0], evs, now, none) is Some;
    let m1 = rule_match(rules[1], evs, now, none) is Some;
    let m2 = rule_match(rules[2], evs, now, none) is Some;
    let m3 = rule_match(rules[3], evs, now, none) is Some;
    if m0 {
        law_first_matching_rule_comes_first(rules, evs, now, host, 0);
    } else if m1 {
        law_first_matching_rule_comes_first(rules, evs, now, host, 1);
    } else if m2 {
        law_first_matching_rule_comes_first(rules, evs, now, host, 2);
    } else if m3 {
        law_first_matching_rule_comes_first(rules, evs, now, host, 3);
    } else {
        lemma_no_match_no_plan(rules, evs, now, host);
    }
}

/// A rule over five minutes that asks for no supporting event, or for one of
/// any of its supporting kinds.
proof fn lemma_shipped_match(rule: RuleView, evs: Seq<EventView>, now: int, trigger: EventKind)
    requires
        !rule.is_fallback,
        rule.trigger == trigger,
        rule.window_secs == 300,
        rule.min_supporting <= 1,
        !rule.supporting.contains(trigger),
    ensures
        rule_match(rule, evs, now, seq![]) is Some <==> just_seen(evs, trigger, now) && (
        rule.min_supporting == 0 || exists|k: int|
            0 <= k < rule.supporting.len() && #[trigger] just_seen(evs, rule.supporting[k], now)),
{
    let none = Seq::<Seq<char>>::empty();
    law_match_needs_trigger_and_support(rule, evs, now, none);
    let places = Set::new(
        |i: int|
            0 <= i < evs.len() && !none.contains(evs[i].id) && now - rule.window_secs * 1000
                <= evs[i].ts <= now && evs[i].kind != rule.trigger && rule.supporting.contains(
                evs[i].kind,
            ),
    );
    if just_seen(evs, trigger, now) {
        let i = choose|i: int|
            0 <= i < evs.len() && (#[trigger] evs[i]).kind == trigger && now - 300_000 <= evs[i].ts
                <= now;
        assert(!none.contains(evs[i].id) && evs[i].kind == rule.trigger);
    }
    if places.len() >= 1 {
        let i = places.choose();
        assert(places.contains(i));
        let k = choose|k: int|
            0 <= k < rule.supporting.len() && rule.supporting[k] == evs[i].kind;
        assert(just_seen(evs, rule.supporting[k], now));
    }
    if exists|k: int|
        0 <= k < rule.supporting.len() && #[trigger] just_seen(evs, rule.supporting[k], now) {
        let k = choose|k: int|
            0 <= k < rule.supporting.len() && #[trigger] just_seen(evs, rule.supporting[k], now);
        let i = choose|i: int|
            0 <= i < evs.len() && (#[trigger] evs[i]).kind == rule.supporting[k] && now - 300_000
                <= evs[i].ts <= now;
        assert(rule.supporting.contains(rule.supporting[k]));
        assert(places.contains(i));
        assert(places.len() > 0) by {
            if places.len() == 0 {
                assert(places =~= Set::<int>::empty());
            }
        }
    }
}

/// No event above Info is lost: within the fallback's window, each is in an
/// incident, be it a rule's or its own.
pub proof fn law_no_warning_is_lost(
    rules: Seq<RuleView>,
    evs: Seq<EventView>,
    now: int,
    host: Seq<char>,
    f: int,
    e: EventView,
)
    requires
        0 <= f < rules.len(),
        rules[f].is_fallback,
        forall|j: int| 0 <= j < f ==> !(#[trigger] rules[j]).is_fallback,
        evs.contains(e),
        !(e.severity is Info),
        now - rules[f].window_secs * 1000 <= e.ts <= now,
    ensures
        exists|i: int|
            0 <= i < scan(rules, evs, now, host).len() && #[trigger] uses(
                scan(rules, evs, now, host)[i].draft,
                e.id,
            ),
{
    let s = scan_rules(rules, evs, now, host);
    let all = scan(rules, evs, now, host);
    lemma_fallback_in(rules, f);
    lemma_absorbed_is_used(rules, evs, now, host);
    let n = s.planned.len() as int;
    if s.absorbed.contains(e.id) {
        let i = choose|i: int|
            0 <= i < s.planned.len() && #[trigger] uses(s.planned[i].draft, e.id);
        assert(all[i] == s.planned[i]);
        assert(uses(all[i].draft, e.id));
    } else {
        let p = |x: EventView| in_window(rules[f], x, now, s.absorbed);
        let w = window_events(rules[f], evs, now, s.absorbed);
        seqs::lemma_kept(evs, p);
        assert(w.contains(e));
        law_fallback_covers_warnings(w, host, e);
        let d = choose|d: DraftView| #[trigger]
            fallback_drafts(w, host).contains(d) && d.events == seq![e];
        let k = choose|k: int| 0 <= k < fallback_drafts(w, host).len() && fallback_drafts(w, host)[k]
            == d;
        assert(all[n + k].draft == d);
        assert(d.events[0].id == e.id);
        assert(uses(all[n + k].draft, e.id));
    }
}

proof fn lemma_fallback_in(rules: Seq<RuleView>, f: int)
    requires
        0 <= f < rules.len(),
        rules[f].is_fallback,
        forall|j: int| 0 <= j < f ==> !(#[trigger] rules[j]).is_fallback,
    ensures
        fallback_in(rules) == Some(rules[f]),
    decreases f,
{
    if f > 0 {
        assert(!rules[0].is_fallback);
        let t = rules.skip(1);
        assert forall|j: int| 0 <= j < f - 1 implies !(#[trigger] t[j]).is_fallback by {
            assert(t[j] == rules[j + 1]);
        }
        lemma_fallback_in(t, f - 1);
    }
}

/// Incidents are of one host: each is made of events of its own host alone,
/// and the incidents of a host are those of a scan of its events.
pub proof fn law_hosts_are_scanned_apart(
    rules: Seq<RuleView>,
    evs: Seq<EventView>,
    now: int,
    e: EventView,
)
    requires
        evs.contains(e),
    ensures
        ({
            let all = plans(rules, evs, hosts_of(evs), now);
            let own = scan(rules, evs.filter(|x: EventView| x.host_id == e.host_id), now, e.host_id);
            forall|i: int| 0 <= i < own.len() ==> all.contains(#[trigger] own[i])
        }),
        forall|p: PlannedView| #[trigger]
            plans(rules, evs, hosts_of(evs), now).contains(p) ==> forall|k: int|
                0 <= k < p.draft.events.len() ==> (#[trigger] p.draft.events[k]).host_id
                    == p.draft.host_id && evs.contains(p.draft.events[k]),
{
    let hosts = hosts_of(evs);
    let all = plans(rules, evs, hosts, now);
    let f = |x: EventView| x.host_id == e.host_id;
    lemma_hosts_of(evs);
    seqs::lemma_kept_is_filter(evs, f, f);
    assert(of_host(evs, e.host_id) == evs.filter(f));
    let h = choose|h: int| 0 <= h < hosts.len() && hosts[h] == e.host_id;
    lemma_plans_hold(rules, evs, hosts, now, h);
    assert forall|p: PlannedView| #[trigger] all.contains(p) implies forall|k: int|
        0 <= k < p.draft.events.len() ==> (#[trigger] p.draft.events[k]).host_id == p.draft.host_id
            && evs.contains(p.draft.events[k]) by {
        lemma_plans_come_from(rules, evs, hosts, now, p);
        let host = p.draft.host_id;
        let own = of_host(evs, host);
        lemma_scan_events(rules, own, now, host, p);
        seqs::lemma_kept(evs, |x: EventView| x.host_id == host);
        assert forall|k: int| 0 <= k < p.draft.events.len() implies (
        #[trigger] p.draft.events[k]).host_id == p.draft.host_id && evs.contains(
            p.draft.events[k],
        ) by {
            assert(own.contains(p.draft.events[k]));
        }
    }
}

proof fn lemma_hosts_of(evs: Seq<EventView>)
    ensures
        forall|i: int| 0 <= i < evs.len() ==> hosts_of(evs).contains((#[trigger] evs[i]).host_id),
    decreases evs.len(),
{
    if evs.len() > 0 {
        let init = evs.drop_last();
        lemma_hosts_of(init);
        table::law_with_item(hosts_of(init), evs.last().host_id);
        assert forall|i: int| 0 <= i < evs.len() implies hosts_of(evs).contains(
            (#[trigger] evs[i]).host_id,
        ) by {
            if i < init.len() {
                assert(init[i] == evs[i]);
                assert(hosts_of(init).contains(init[i].host_id));
            }
        }
    }
}

proof fn lemma_plans_hold(
    rules: Seq<RuleView>,
    evs: Seq<EventView>,
    hosts: Seq<Seq<char>>,
    now: int,
    h: int,
)
    requires
        0 <= h < hosts.len(),
    ensures
        ({
            let own = scan(rules, of_host(evs, hosts[h]), now, hosts[h]);
            forall|i: int|
                0 <= i < own.len() ==> plans(rules, evs, hosts, now).contains(#[trigger] own[i])
        }),
    decreases hosts.len(),
{
    let init = hosts.drop_last();
    let a = plans(rules, evs, init, now);
    let b = scan(rules, of_host(evs, hosts.last()), now, hosts.last());
    let own = scan(rules, of_host(evs, hosts[h]), now, hosts[h]);
    if h < init.len() {
        assert(init[h] == hosts[h]);
        lemma_plans_hold(rules, evs, init, now, h);
        assert forall|i: int| 0 <= i < own.len() implies plans(rules, evs, hosts, now).contains(
            #[trigger] own[i],
        ) by {
            let j = choose|j: int| 0 <= j < a.len() && a[j] == own[i];
            assert((a + b)[j] == own[i]);
        }
    } else {
        assert forall|i: int| 0 <= i < own.len() implies plans(rules, evs, hosts, now).contains(
            #[trigger] own[i],
        ) by {
            assert((a + b)[a.len() + i] == own[i]);
        }
    }
}

proof fn lemma_plans_come_from(
    rules: Seq<RuleView>,
    evs: Seq<EventView>,
    hosts: Seq<Seq<char>>,
    now: int,
    p: PlannedView,
)
    requires
        plans(rules, evs, hosts, now).contains(p),
    ensures
        scan(rules, of_host(evs, p.draft.host_id), now, p.draft.host_id).contains(p),
    decreases hosts.len(),
{
    if hosts.len() > 0 {
        let init = hosts.drop_last();
        let host = hosts.last();
        let a = plans(rules, evs, init, now);
        let b = scan(rules, of_host(evs, host), now, host);
        let j = choose|j: int| 0 <= j < (a + b).len() && (a + b)[j] == p;
        if j < a.len() {
            assert(a[j] == p);
            lemma_plans_come_from(rules, evs, init, now, p);
        } else {
            assert(b[j - a.len()] == p);
            lemma_scan_events(rules, of_host(evs, host), now, host, p);
        }
    }
}

/// What a scan plans is of its host and of events it was given.
proof fn lemma_scan_events(
    rules: Seq<RuleView>,
    evs: Seq<EventView>,
    now: int,
    host: Seq<char>,
    p: PlannedView,
)
    requires
        scan(rules, evs, now, host).contains(p),
    ensures
        p.draft.host_id == host,
        forall|k: int|
            0 <= k < p.draft.events.len() ==> evs.contains(#[trigger] p.draft.events[k]),
{
    let s = scan_rules(rules, evs, now, host);
    let rest = left_over(rules, evs, now, host, s.absorbed);
    let i = choose|i: int| 0 <= i < (s.planned + rest).len() && (s.planned + rest)[i] == p;
    if i < s.planned.len() {
        assert(s.planned[i] == p);
        lemma_rule_events(rules, evs, now, host, i);
    } else {
        let fb = fallback_in(rules)->0;
        let w = window_events(fb, evs, now, s.absorbed);
        let d = fallback_drafts(w, host);
        let k = i - s.planned.len();
        assert(rest[k] == p);
        assert(p.draft == d[k]);
        assert(d.contains(d[k]));
        let f = |x: EventView| single(x, host);
        seqs::lemma_picked(w, f, d[k]);
        let a = choose|a: int| 0 <= a < w.len() && f(#[trigger] w[a]) == Some(d[k]);
        seqs::lemma_kept(evs, |e: EventView| in_window(fb, e, now, s.absorbed));
        assert(w.contains(w[a]));
        assert forall|b: int| 0 <= b < p.draft.events.len() implies evs.contains(
            #[trigger] p.draft.events[b],
        ) by {
            assert(p.draft.events[b] == w[a]);
        }
    }
}

proof fn lemma_rule_events(
    rules: Seq<RuleView>,
    evs: Seq<EventView>,
    now: int,
    host: Seq<char>,
    i: int,
)
    requires
        0 <= i < scan_rules(rules, evs, now, host).planned.len(),
    ensures
        ({
            let d = scan_rules(rules, evs, now, host).planned[i].draft;
            d.host_id == host && forall|k: int|
                0 <= k < d.events.len() ==> evs.contains(#[trigger] d.events[k])
        }),
    decreases rules.len(),
{
    if rules.len() > 0 {
        let before = scan_rules(rules.drop_last(), evs, now, host);
        if i < before.planned.len() {
            lemma_rule_events(rules.drop_last(), evs, now, host, i);
        } else {
            let rule = rules.last();
            let m = rule_match(rule, evs, now, before.absorbed)->0;
            let d = scan_rules(rules, evs, now, host).planned[i].draft;
            assert(d == assembled(rule, m, host));
            seqs::lemma_kept(evs, |e: EventView| in_window(rule, e, now, before.absorbed));
            assert forall|k: int| 0 <= k < d.events.len() implies evs.contains(
                #[trigger] d.events[k],
            ) by {
                assert(m.events.contains(d.events[k]));
            }
        }
    }
}

/// Of the rules put over others, the last of an id counts; an id that none has
/// keeps its rule.
pub proof fn law_last_override_counts(
    rules: Seq<RuleView>,
    over: Seq<RuleView>,
    id: Seq<char>,
    i: int,
)
    requires
        -1 <= i < over.len(),
        i >= 0 ==> over[i].id == id,
        forall|j: int| i < j < over.len() ==> (#[trigger] over[j]).id != id,
    ensures
        rule_named(merged(rules, over), id) == (if i >= 0 {
            Some(over[i])
        } else {
            rule_named(rules, id)
        }),
    decreases over.len(),
{
    if over.len() > 0 {
        let init = over.drop_last();
        law_override_by_id(merged(rules, init), over.last(), id);
        assert(over.last() == over[over.len() - 1]);
        if i < init.len() {
            assert forall|j: int| i < j < init.len() implies (#[trigger] init[j]).id != id by {
                assert(init[j] == over[j]);
            }
            law_last_override_counts(rules, init, id, i);
        }
    }
}

/// A resolved incident may not reopen before its cooldown is over, and may from
/// then on; one that was not resolved has none.
pub proof fn law_cooldown_ends(cooldown_secs: int, resolved_at: int, now: int)
    ensures
        cooling(cooldown_secs, Some(resolved_at), now) <==> now < resolved_at + cooldown_secs
            * 1000,
        !cooling(cooldown_secs, None, now),
{
}

} // verus!
