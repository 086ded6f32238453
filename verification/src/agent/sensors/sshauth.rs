//! Logins in the journal: who, from where, and how often in vain.

use vstd::prelude::*;

use crate::agent::journald;
use crate::agent::journald::JournalLine;
use crate::common;
use crate::common::Severity;
use crate::seqs;
use crate::table;
use crate::table::{Table, TextSet};
use crate::text;

verus! {

/// What an authentication line reports.
#[derive(Debug, Clone, Copy, PartialEq, Eq, Structural)]
pub enum AuthKind {
    SshLogin,
    SshFailed,
    RootLogin,
    SudoUsed,
}

/// One classified auth-related journal line.
#[derive(Debug, Clone, PartialEq)]
pub struct AuthEvent {
    pub kind: AuthKind,
    pub user: String,
    pub ip: String,
    pub detail: String,
}

/// What an `AuthEvent` says.
#[verifier::ext_equal]
pub struct AuthView {
    pub kind: AuthKind,
    pub user: Seq<char>,
    pub ip: Seq<char>,
    pub detail: Seq<char>,
}

impl View for AuthEvent {
    type V = AuthView;

    open spec fn view(&self) -> AuthView {
        AuthView { kind: self.kind, user: self.user@, ip: self.ip@, detail: self.detail@ }
    }
}

/// The text before the first occurrence of `pat`, or all of it.
pub open spec fn before(s: Seq<char>, pat: Seq<char>) -> Seq<char> {
    match text::cut(s, pat) {
        Some((a, b)) => a,
        None => s,
    }
}

/// User and address of "<method> for <user> from <ip> port <port> ...", where
/// the method may be missing. "invalid user " before the name is not part of
/// it. There are none when either is empty.
pub open spec fn user_and_ip(rest: Seq<char>) -> Option<(Seq<char>, Seq<char>)> {
    let named = match text::after_prefix(text::trim_start(rest), "for "@) {
        Some(t) => text::cut(t, " from "@),
        None => match text::cut(rest, " for "@) {
            Some((a, t)) => text::cut(t, " from "@),
            None => None,
        },
    };
    match named {
        Some((name, tail)) => {
            let ip = before(tail, " port "@);
            let user = match text::after_prefix(name, "invalid user "@) {
                Some(u) => u,
                None => name,
            };
            if user.len() == 0 || ip.len() == 0 {
                None
            } else {
                Some((user, ip))
            }
        },
        None => None,
    }
}

/// The event of a message that names user and address after a prefix.
pub open spec fn login_event(kind: AuthKind, rest: Seq<char>, msg: Seq<char>) -> Option<AuthView> {
    match user_and_ip(rest) {
        Some((user, ip)) => Some(
            AuthView {
                kind: if kind is SshLogin && user == "root"@ {
                    AuthKind::RootLogin
                } else {
                    kind
                },
                user,
                ip,
                detail: msg,
            },
        ),
        None => None,
    }
}

/// The event of a message of sshd. Messages on opened sessions are none: they
/// come with every login.
pub open spec fn sshd_event(msg: Seq<char>) -> Option<AuthView> {
    if let Some(rest) = text::after_prefix(msg, "Accepted "@) {
        login_event(AuthKind::SshLogin, rest, msg)
    } else if let Some(rest) = text::after_prefix(msg, "Failed password"@) {
        login_event(AuthKind::SshFailed, rest, msg)
    } else if let Some(rest) = text::after_prefix(msg, "Failed keyboard-interactive"@) {
        login_event(AuthKind::SshFailed, rest, msg)
    } else if let Some(rest) = text::after_prefix(
        msg,
        "error: maximum authentication attempts exceeded"@,
    ) {
        login_event(AuthKind::SshFailed, rest, msg)
    } else {
        None
    }
}

/// The event of a message of sudo: "<user> : ... COMMAND=<command>".
pub open spec fn sudo_event(msg: Seq<char>) -> Option<AuthView> {
    match (text::cut(msg, " : "@), text::cut(msg, "COMMAND="@)) {
        (Some((user, a)), Some((b, command))) => if user.len() > 0 && before(
            command,
            "COMMAND="@,
        ).len() > 0 {
            Some(AuthView { kind: AuthKind::SudoUsed, user, ip: seq![], detail: msg })
        } else {
            None
        },
        _ => None,
    }
}

/// The event of a message of su.
pub open spec fn su_event(msg: Seq<char>) -> Option<AuthView> {
    if text::holds(msg, "pam_unix(su:session): session opened for user root"@) {
        Some(AuthView { kind: AuthKind::RootLogin, user: "root"@, ip: seq![], detail: msg })
    } else {
        None
    }
}

/// The authentication event of a journal line.
pub open spec fn auth_of(l: journald::LineView) -> Option<AuthView> {
    if l.ident == "sshd"@ {
        sshd_event(l.message)
    } else if l.ident == "sudo"@ {
        sudo_event(l.message)
    } else if l.ident == "su"@ {
        su_event(l.message)
    } else {
        None
    }
}

/// What an optional authentication event says.
pub open spec fn auth_view(e: Option<AuthEvent>) -> Option<AuthView> {
    match e {
        Some(a) => Some(a@),
        None => None,
    }
}

fn before_text(s: &str, pat: &str) -> (r: String)
    ensures
        r@ == before(s@, pat@),
{
    match text::split_once(s, pat) {
        Some((a, _)) => a,
        None => text::owned(s),
    }
}

fn parse_user_ip(rest: &str) -> (r: Option<(String, String)>)
    ensures
        match r {
            Some((user, ip)) => user_and_ip(rest@) == Some((user@, ip@)),
            None => user_and_ip(rest@) is None,
        },
{
    let lead = text::trim_left(rest);
    let (name, tail) = match text::strip_prefix(lead.as_str(), "for ") {
        Some(t) => text::split_once(t.as_str(), " from ")?,
        None => {
            let (_, t) = text::split_once(rest, " for ")?;
            text::split_once(t.as_str(), " from ")?
        },
    };
    let ip = before_text(tail.as_str(), " port ");
    let user = match text::strip_prefix(name.as_str(), "invalid user ") {
        Some(u) => u,
        None => name,
    };
    if user.as_str().is_empty() || ip.as_str().is_empty() {
        None
    } else {
        Some((user, ip))
    }
}

fn login(kind: AuthKind, rest: &str, msg: &str) -> (r: Option<AuthEvent>)
    ensures
        auth_view(r) == login_event(kind, rest@, msg@),
{
    let (user, ip) = parse_user_ip(rest)?;
    let root = text::same(user.as_str(), "root");
    let kind = match kind {
        AuthKind::SshLogin => if root {
            AuthKind::RootLogin
        } else {
            AuthKind::SshLogin
        },
        _ => kind,
    };
    Some(AuthEvent { kind, user, ip, detail: text::owned(msg) })
}

fn classify_sshd(msg: &str) -> (r: Option<AuthEvent>)
    ensures
        auth_view(r) == sshd_event(msg@),
{
    if let Some(rest) = text::strip_prefix(msg, "Accepted ") {
        login(AuthKind::SshLogin, rest.as_str(), msg)
    } else if let Some(rest) = text::strip_prefix(msg, "Failed password") {
        login(AuthKind::SshFailed, rest.as_str(), msg)
    } else if let Some(rest) = text::strip_prefix(msg, "Failed keyboard-interactive") {
        login(AuthKind::SshFailed, rest.as_str(), msg)
    } else if let Some(rest) = text::strip_prefix(
        msg,
        "error: maximum authentication attempts exceeded",
    ) {
        login(AuthKind::SshFailed, rest.as_str(), msg)
    } else {
        None
    }
}

fn classify_sudo(msg: &str) -> (r: Option<AuthEvent>)
    ensures
        auth_view(r) == sudo_event(msg@),
{
    let (user, _) = text::split_once(msg, " : ")?;
    let (_, command) = text::split_once(msg, "COMMAND=")?;
    let first = before_text(command.as_str(), "COMMAND=");
    if !user.as_str().is_empty() && !first.as_str().is_empty() {
        let e = AuthEvent {
            kind: AuthKind::SudoUsed,
            user,
            ip: String::new(),
            detail: text::owned(msg),
        };
        assert(e@.ip =~= seq![]);
        Some(e)
    } else {
        None
    }
}

/// Classify a journal line into an auth event, or None for unrelated lines.
/// Recognized message shapes are those of sshd, sudo and su.
pub fn classify(line: &JournalLine) -> (r: Option<AuthEvent>)
    ensures
        auth_view(r) == auth_of(line@),
{
    let msg = line.message.as_str();
    if text::same(line.ident.as_str(), "sshd") {
        classify_sshd(msg)
    } else if text::same(line.ident.as_str(), "sudo") {
        classify_sudo(msg)
    } else if text::same(line.ident.as_str(), "su") {
        if text::contains_text(msg, "pam_unix(su:session): session opened for user root") {
            let e = AuthEvent {
                kind: AuthKind::RootLogin,
                user: text::owned("root"),
                ip: String::new(),
                detail: text::owned(msg),
            };
            assert(e@.ip =~= seq![]);
            Some(e)
        } else {
            None
        }
    } else {
        None
    }
}

/// First-seen source IP tracking.
pub struct SeenIps {
    pub ips: TextSet,
}

impl View for SeenIps {
    type V = Seq<Seq<char>>;

    open spec fn view(&self) -> Seq<Seq<char>> {
        self.ips@
    }
}

impl Default for SeenIps {
    fn default() -> (r: Self)
        ensures
            r@ == Seq::<Seq<char>>::empty(),
    {
        SeenIps { ips: TextSet::new() }
    }
}

impl SeenIps {
    /// Record an address; whether it was seen for the first time.
    pub fn is_first(&mut self, ip: &str) -> (r: bool)
        ensures
            r == !old(self)@.contains(ip@),
            final(self)@ == table::with_item(old(self)@, ip@),
    {
        self.ips.insert(ip)
    }
}

/// Failures by (user, ip), each list in the order of their coming.
pub type FailureView = Seq<((Seq<char>, Seq<char>), Seq<i64>)>;

/// The failures of one (user, ip) that count at a new one: those within the
/// window before it, and itself.
pub open spec fn counted_failures(
    failures: FailureView,
    user: Seq<char>,
    ip: Seq<char>,
    ts_ms: i64,
    window_secs: int,
) -> Seq<i64> {
    let before = match table::lookup(failures, (user, ip)) {
        Some(l) => l,
        None => seq![],
    };
    seqs::recent(before.push(ts_ms), ts_ms as int, window_secs * 1000)
}

/// The failures after a new one: an episode starts the counting anew.
pub open spec fn failures_after(
    failures: FailureView,
    user: Seq<char>,
    ip: Seq<char>,
    ts_ms: i64,
    window_secs: int,
    threshold: int,
) -> FailureView {
    let list = counted_failures(failures, user, ip, ts_ms, window_secs);
    if list.len() >= threshold {
        table::without(failures, (user, ip))
    } else {
        table::put(failures, (user, ip), list)
    }
}

/// Brute-force episode detection per (user, ip): failures within a window;
/// at threshold the episode fires and resets.
pub struct BruteForceTracker {
    pub threshold: u32,
    pub window_secs: u64,
    pub failures: Table<(String, String), Vec<i64>>,
}

impl BruteForceTracker {
    /// A tracker without failures.
    pub fn new(threshold: u32, window_secs: u64) -> (r: Self)
        ensures
            r.threshold == threshold,
            r.window_secs == window_secs,
            r.failures@ == FailureView::empty(),
    {
        BruteForceTracker { threshold, window_secs, failures: Table::new() }
    }

    /// Record a failure at ts_ms. Returns (episode_completed, count_in_window).
    pub fn observe_failure(&mut self, user: &str, ip: &str, ts_ms: i64) -> (r: (bool, usize))
        ensures
            r.1 == counted_failures(
                old(self).failures@,
                user@,
                ip@,
                ts_ms,
                old(self).window_secs as int,
            ).len(),
            r.0 == (r.1 >= old(self).threshold),
            final(self).failures@ == failures_after(
                old(self).failures@,
                user@,
                ip@,
                ts_ms,
                old(self).window_secs as int,
                old(self).threshold as int,
            ),
            final(self).threshold == old(self).threshold,
            final(self).window_secs == old(self).window_secs,
    {
        let key = (text::owned(user), text::owned(ip));
        let mut list: Vec<i64> = match self.failures.get(&key) {
            Some(l) => seqs::copy_times(l),
            None => Vec::new(),
        };
        list.push(ts_ms);
        let kept = seqs::keep_recent(&list, ts_ms, (self.window_secs as i128) * 1000);
        let count: usize = kept.len();
        if count >= self.threshold as usize {
            self.failures.remove(&key);
            (true, count)
        } else {
            self.failures.set(key, kept);
            (false, count)
        }
    }
}

/// An episode needs the threshold: below it, failures of a (user, ip) are
/// remembered as they were counted, and none of another (user, ip) changes;
/// at it, the counting of that (user, ip) starts anew.
pub proof fn law_brute_force_episodes(
    failures: FailureView,
    user: Seq<char>,
    ip: Seq<char>,
    ts_ms: i64,
    window_secs: int,
    threshold: int,
    other: (Seq<char>, Seq<char>),
)
    ensures
        ({
            let list = counted_failures(failures, user, ip, ts_ms, window_secs);
            let after = failures_after(failures, user, ip, ts_ms, window_secs, threshold);
            &&& list.len() >= threshold ==> table::lookup(after, (user, ip)) is None
            &&& list.len() < threshold ==> table::lookup(after, (user, ip)) == Some(list)
            &&& other != (user, ip) ==> table::lookup(after, other) == table::lookup(
                failures,
                other,
            )
            &&& window_secs >= 0 ==> list.contains(ts_ms)
            &&& forall|t: i64| list.contains(t) ==> t + window_secs * 1000 >= ts_ms
        }),
{
    let list = counted_failures(failures, user, ip, ts_ms, window_secs);
    table::law_put_then_lookup(failures, (user, ip), list, other);
    table::law_without_then_lookup(failures, (user, ip), other);
    let before = match table::lookup(failures, (user, ip)) {
        Some(l) => l,
        None => seq![],
    };
    let pushed = before.push(ts_ms);
    assert(pushed[before.len() as int] == ts_ms);
    let w = window_secs * 1000;
    seqs::lemma_recent(pushed, ts_ms as int, w);
    assert(list == seqs::recent(pushed, ts_ms as int, w));
    assert(window_secs >= 0 ==> pushed.contains(ts_ms) && ts_ms + w >= ts_ms);
}

/// A failed login, and when it came.
#[verifier::ext_equal]
pub struct Failure {
    pub user: Seq<char>,
    pub ip: Seq<char>,
    pub ts_ms: i64,
}

/// What is remembered after failures in order, nothing having come before.
pub open spec fn failures_over(
    calls: Seq<Failure>,
    window_secs: int,
    threshold: int,
) -> FailureView
    decreases calls.len(),
{
    if calls.len() == 0 {
        seq![]
    } else {
        let l = calls.last();
        failures_after(
            failures_over(calls.drop_last(), window_secs, threshold),
            l.user,
            l.ip,
            l.ts_ms,
            window_secs,
            threshold,
        )
    }
}

/// When the failures of a (user, ip) came that are later than its last
/// episode. An episode is complete with the failure that brings those within
/// the window to the threshold.
pub open spec fn since_episode(
    calls: Seq<Failure>,
    user: Seq<char>,
    ip: Seq<char>,
    window_secs: int,
    threshold: int,
) -> Seq<i64>
    decreases calls.len(),
{
    if calls.len() == 0 {
        seq![]
    } else {
        let before = since_episode(calls.drop_last(), user, ip, window_secs, threshold);
        let l = calls.last();
        if l.user != user || l.ip != ip {
            before
        } else if in_window(before, l.ts_ms, window_secs).len() >= threshold {
            seq![]
        } else {
            before.push(l.ts_ms)
        }
    }
}

/// Earlier failures and one at `ts_ms`, as far as they lie within the window
/// before it.
pub open spec fn in_window(before: Seq<i64>, ts_ms: i64, window_secs: int) -> Seq<i64> {
    seqs::recent(before.push(ts_ms), ts_ms as int, window_secs * 1000)
}

/// Every failure of a (user, ip) came no later than `ts_ms`, and they came in
/// order of time.
pub open spec fn in_order(
    calls: Seq<Failure>,
    user: Seq<char>,
    ip: Seq<char>,
    ts_ms: i64,
) -> bool {
    &&& forall|i: int, j: int|
        0 <= i <= j < calls.len() && calls[i].user == user && calls[i].ip == ip && calls[j].user
            == user && calls[j].ip == ip ==> (#[trigger] calls[i]).ts_ms <= (
        #[trigger] calls[j]).ts_ms
    &&& forall|i: int|
        0 <= i < calls.len() && calls[i].user == user && calls[i].ip == ip ==> (
        #[trigger] calls[i]).ts_ms <= ts_ms
}

/// The failures that are remembered of a (user, ip).
spec fn remembered(failures: FailureView, user: Seq<char>, ip: Seq<char>) -> Seq<i64> {
    match table::lookup(failures, (user, ip)) {
        Some(l) => l,
        None => seq![],
    }
}

/// Within a window, what is remembered of a (user, ip) is what came since its
/// last episode.
proof fn lemma_failures_over(
    calls: Seq<Failure>,
    user: Seq<char>,
    ip: Seq<char>,
    ts_ms: i64,
    window_secs: int,
    threshold: int,
)
    requires
        in_order(calls, user, ip, ts_ms),
    ensures
        seqs::recent(
            remembered(failures_over(calls, window_secs, threshold), user, ip),
            ts_ms as int,
            window_secs * 1000,
        ) == seqs::recent(
            since_episode(calls, user, ip, window_secs, threshold),
            ts_ms as int,
            window_secs * 1000,
        ),
    decreases calls.len(),
{
    if calls.len() > 0 {
        let init = calls.drop_last();
        let l = calls.last();
        let w = window_secs * 1000;
        assert(forall|i: int| 0 <= i < init.len() ==> #[trigger] init[i] == calls[i]);
        assert(calls[calls.len() - 1] == l);
        let f = failures_over(init, window_secs, threshold);
        let list = counted_failures(f, l.user, l.ip, l.ts_ms, window_secs);
        table::law_put_then_lookup(f, (l.user, l.ip), list, (user, ip));
        table::law_without_then_lookup(f, (l.user, l.ip), (user, ip));
        if l.user == user && l.ip == ip {
            assert forall|i: int| 0 <= i < init.len() && init[i].user == user && init[i].ip
                == ip implies (#[trigger] init[i]).ts_ms <= l.ts_ms by {
                assert(calls[i].ts_ms <= calls[calls.len() - 1].ts_ms);
            }
            let old_list = remembered(f, user, ip);
            let times = since_episode(init, user, ip, window_secs, threshold);
            lemma_failures_over(init, user, ip, l.ts_ms, window_secs, threshold);
            lemma_failures_over(init, user, ip, ts_ms, window_secs, threshold);
            assert(old_list.push(l.ts_ms).drop_last() =~= old_list);
            assert(times.push(l.ts_ms).drop_last() =~= times);
            assert(list == in_window(times, l.ts_ms, window_secs));
            seqs::lemma_recent_twice(old_list.push(l.ts_ms), l.ts_ms as int, ts_ms as int, w);
        } else {
            lemma_failures_over(init, user, ip, ts_ms, window_secs, threshold);
        }
    }
}

/// Over failures in order of time, what is counted at one of them is the
/// failures of its (user, ip) since the last episode of that pair, itself
/// among them, that lie within the window.
pub proof fn law_failures_are_counted_since_the_last_episode(
    calls: Seq<Failure>,
    now: Failure,
    window_secs: int,
    threshold: int,
)
    requires
        in_order(calls, now.user, now.ip, now.ts_ms),
    ensures
        counted_failures(
            failures_over(calls, window_secs, threshold),
            now.user,
            now.ip,
            now.ts_ms,
            window_secs,
        ) == in_window(
            since_episode(calls, now.user, now.ip, window_secs, threshold),
            now.ts_ms,
            window_secs,
        ),
{
    let old_list = remembered(
        failures_over(calls, window_secs, threshold),
        now.user,
        now.ip,
    );
    let times = since_episode(calls, now.user, now.ip, window_secs, threshold);
    lemma_failures_over(calls, now.user, now.ip, now.ts_ms, window_secs, threshold);
    assert(old_list.push(now.ts_ms).drop_last() =~= old_list);
    assert(times.push(now.ts_ms).drop_last() =~= times);
}

/// The failures of one (user, ip).
pub open spec fn of_pair(calls: Seq<Failure>, user: Seq<char>, ip: Seq<char>) -> Seq<Failure> {
    seqs::kept(calls, |c: Failure| c.user == user && c.ip == ip)
}

/// Failures of another user, or from another address, are not counted.
pub proof fn law_only_the_pairs_own_failures_count(
    calls: Seq<Failure>,
    user: Seq<char>,
    ip: Seq<char>,
    window_secs: int,
    threshold: int,
)
    ensures
        since_episode(of_pair(calls, user, ip), user, ip, window_secs, threshold)
            == since_episode(calls, user, ip, window_secs, threshold),
    decreases calls.len(),
{
    if calls.len() > 0 {
        law_only_the_pairs_own_failures_count(
            calls.drop_last(),
            user,
            ip,
            window_secs,
            threshold,
        );
        let init = of_pair(calls.drop_last(), user, ip);
        assert(init.push(calls.last()).drop_last() =~= init);
    }
}

/// One severity higher, Critical at most.
pub open spec fn escalated(s: Severity) -> Severity {
    match s {
        Severity::Info => Severity::Warning,
        Severity::Warning => Severity::Critical,
        Severity::Critical => Severity::Critical,
    }
}

/// Escalation never lowers a severity.
pub proof fn law_escalation_never_lowers(s: Severity)
    ensures
        common::rank(escalated(s)) >= common::rank(s),
        s is Critical <==> escalated(s) == s,
{
}

/// A login on the way to becoming an event.
pub struct SshEventBuilder {
    pub user: String,
    pub ip: String,
    pub sev: Severity,
}

/// Severity helpers for auth events. Login severity is decided by the caller
/// at construction (SshLogin=Info, RootLogin=Warning); suggest_severity only
/// escalates when the source IP is new (Critical cap).
pub fn base_ssh_event(user: &str, ip: &str, sev: Severity) -> (r: SshEventBuilder)
    ensures
        r.user@ == user@,
        r.ip@ == ip@,
        r.sev == sev,
{
    SshEventBuilder { user: text::owned(user), ip: text::owned(ip), sev }
}

impl SshEventBuilder {
    /// Escalate one level on a new source IP, capped at Critical.
    pub fn suggest_severity(&self, ip_is_new: bool) -> (r: Severity)
        ensures
            r == (if ip_is_new {
                escalated(self.sev)
            } else {
                self.sev
            }),
    {
        if !ip_is_new {
            return self.sev;
        }
        match self.sev {
            Severity::Info => Severity::Warning,
            Severity::Warning => Severity::Critical,
            Severity::Critical => Severity::Critical,
        }
    }
}

/// A login line of sshd is read as it was written: method, user, address and
/// port. The login of root is its own kind.
pub proof fn law_logins_are_read(
    l: journald::LineView,
    method: Seq<char>,
    user: Seq<char>,
    ip: Seq<char>,
    rest: Seq<char>,
)
    requires
        l.ident == "sshd"@,
        text::is_word(method) && method != "for"@,
        text::is_word(user),
        text::is_word(ip),
        l.message == "Accepted "@ + method + " for "@ + user + " from "@ + ip + " port "@ + rest,
    ensures
        auth_of(l) == Some(
            (AuthView {
                kind: if user == "root"@ {
                    AuthKind::RootLogin
                } else {
                    AuthKind::SshLogin
                },
                user,
                ip,
                detail: l.message,
            }),
        ),
{
    lemma_phrases();
    let tail = user + " from "@ + ip + " port "@ + rest;
    let all = method + " for "@ + tail;
    assert(l.message =~= "Accepted "@ + all);
    text::law_prefix_and_rest("Accepted "@, all);
    lemma_no_blank(method);
    text::law_cut_at_the_first(method, " for "@, tail);
    assert(!text::is_space(all[0])) by {
        assert(all[0] == method[0]);
    }
    assert(text::trim_start(all) == all);
    assert(!text::starts(all, "for "@)) by {
        if text::starts(all, "for "@) {
            let head = all.subrange(0, 4);
            assert(head == "for "@);
            assert(head[0] == all[0] && head[1] == all[1] && head[2] == all[2] && head[3]
                == all[3]);
            if method.len() >= 4 {
                assert(method[3] == all[3]);
                assert(!text::is_space(method[3]));
            } else if method.len() == 3 {
                assert(method[0] == 'f' && method[1] == 'o' && method[2] == 'r');
                assert(method =~= "for"@);
            } else {
                assert(all[method.len() as int] == " for "@[0]);
            }
        }
    }
    lemma_named(user, ip, rest);
}

/// A failed password is read as it was written, also where the user does not
/// exist.
pub proof fn law_failed_passwords_are_read(
    l: journald::LineView,
    user: Seq<char>,
    ip: Seq<char>,
    rest: Seq<char>,
)
    requires
        l.ident == "sshd"@,
        text::is_word(user),
        text::is_word(ip),
        l.message == "Failed password for "@ + user + " from "@ + ip + " port "@ + rest
            || (user != "from"@ && l.message == "Failed password for invalid user "@ + user
            + " from "@ + ip + " port "@ + rest),
    ensures
        auth_of(l) == Some(
            (AuthView { kind: AuthKind::SshFailed, user, ip, detail: l.message }),
        ),
{
    lemma_phrases();
    let tail = user + " from "@ + ip + " port "@ + rest;
    lemma_no_blank(user);
    lemma_no_blank(ip);
    let known = l.message == "Failed password for "@ + user + " from "@ + ip + " port "@ + rest;
    let t = if known {
        tail
    } else {
        "invalid user "@ + tail
    };
    let lead = " for "@ + t;
    assert(l.message =~= "Failed password"@ + lead);
    text::law_prefix_and_rest("Failed password"@, lead);
    assert(!text::starts(l.message, "Accepted "@)) by {
        if text::starts(l.message, "Accepted "@) {
            assert(l.message.subrange(0, 9)[0] == l.message[0]);
        }
    }
    assert(lead.skip(1) =~= "for "@ + t);
    assert(text::trim_start(lead) == text::trim_start("for "@ + t));
    text::lemma_trim_nothing_before("for "@ + t);
    text::law_prefix_and_rest("for "@, t);
    let tip = ip + " port "@ + rest;
    if known {
        lemma_named(user, ip, rest);
    } else {
        lemma_named_invalid(user, ip, rest);
    }
}

/// The words that are searched for, letter by letter.
proof fn lemma_phrases()
    ensures
        " for "@ == seq![' ', 'f', 'o', 'r', ' '],
        "for "@ == seq!['f', 'o', 'r', ' '],
        "for"@ == seq!['f', 'o', 'r'],
        " from "@ == seq![' ', 'f', 'r', 'o', 'm', ' '],
        " port "@ == seq![' ', 'p', 'o', 'r', 't', ' '],
        "Failed password for "@ == "Failed password"@ + " for "@,
        "Failed password for invalid user "@ == "Failed password"@ + " for "@ + "invalid user "@,
        "invalid user "@ == seq![
            'i', 'n', 'v', 'a', 'l', 'i', 'd', ' ', 'u', 's', 'e', 'r', ' ',
        ],
        "Accepted "@.len() == 9 && "Accepted "@[0] == 'A',
        "Failed password"@[0] == 'F',
{
    reveal_strlit(" for ");
    reveal_strlit("for ");
    reveal_strlit("for");
    reveal_strlit(" from ");
    reveal_strlit(" port ");
    reveal_strlit("Failed password for ");
    reveal_strlit("Failed password for invalid user ");
    reveal_strlit("Failed password");
    reveal_strlit("invalid user ");
    reveal_strlit("Accepted ");
    assert(" for "@ =~= seq![' ', 'f', 'o', 'r', ' ']);
    assert("for "@ =~= seq!['f', 'o', 'r', ' ']);
    assert("for"@ =~= seq!['f', 'o', 'r']);
    assert(" from "@ =~= seq![' ', 'f', 'r', 'o', 'm', ' ']);
    assert(" port "@ =~= seq![' ', 'p', 'o', 'r', 't', ' ']);
    assert("invalid user "@ =~= seq![
        'i', 'n', 'v', 'a', 'l', 'i', 'd', ' ', 'u', 's', 'e', 'r', ' ',
    ]);
    assert("Failed password for "@ =~= "Failed password"@ + " for "@);
    assert("Failed password for invalid user "@ =~= "Failed password"@ + " for "@
        + "invalid user "@);
}

proof fn lemma_no_blank(w: Seq<char>)
    requires
        text::is_word(w),
    ensures
        !w.contains(' '),
{
    if w.contains(' ') {
        let i = choose|i: int| 0 <= i < w.len() && w[i] == ' ';
        assert(!text::is_space(w[i]));
    }
}

/// User and address of what follows "for ".
proof fn lemma_named(user: Seq<char>, ip: Seq<char>, rest: Seq<char>)
    requires
        text::is_word(user),
        text::is_word(ip),
    ensures
        ({
            let tail = user + " from "@ + ip + " port "@ + rest;
            &&& text::cut(tail, " from "@) == Some((user, ip + " port "@ + rest))
            &&& before(ip + " port "@ + rest, " port "@) == ip
            &&& text::after_prefix(user, "invalid user "@) is None
        }),
{
    lemma_phrases();
    lemma_no_blank(user);
    lemma_no_blank(ip);
    let tip = ip + " port "@ + rest;
    text::law_cut_at_the_first(user, " from "@, tip);
    assert(user + " from "@ + tip =~= user + " from "@ + ip + " port "@ + rest);
    text::law_cut_at_the_first(ip, " port "@, rest);
    if text::starts(user, "invalid user "@) {
        assert(user.subrange(0, 13)[7] == user[7]);
        assert(!text::is_space(user[7]));
    }
}

/// " from " stands nowhere in "invalid user ", the name and what follows,
/// before the end of the name.
proof fn lemma_no_from_before(user: Seq<char>, after: Seq<char>, j: int)
    requires
        text::is_word(user),
        user != "from"@,
        0 <= j < 13 + user.len(),
    ensures
        !text::occurs_at("invalid user "@ + user + " from "@ + after, " from "@, j),
{
    lemma_phrases();
    reveal_strlit("from");
    let head = "invalid user "@;
    let s = head + user + " from "@ + after;
    if text::occurs_at(s, " from "@, j) {
        let w = s.subrange(j, j + 6);
        assert(w == " from "@);
        assert(w[0] == s[j] && w[1] == s[j + 1] && w[2] == s[j + 2]);
        if j >= 13 {
            assert(s[j] == user[j - 13]);
            assert(!text::is_space(user[j - 13]));
        } else if j == 12 {
            assert(w[3] == s[15] && w[4] == s[16] && w[5] == s[17]);
            let n = user.len() as int;
            assert(s[13 + n] == ' ');
            if n > 4 {
                assert(s[17] == user[4]);
                assert(!text::is_space(user[4]));
            } else if n == 4 {
                assert(user[0] == 'f' && user[1] == 'r' && user[2] == 'o' && user[3] == 'm');
                assert(user =~= "from"@);
            } else {
                assert(n == 1 || n == 2 || n == 3);
            }
        } else {
            assert(s[j] == head[j]);
            if j == 7 {
                assert(s[8] == head[8]);
            }
        }
    }
}

proof fn lemma_named_invalid(user: Seq<char>, ip: Seq<char>, rest: Seq<char>)
    requires
        text::is_word(user),
        user != "from"@,
        text::is_word(ip),
    ensures
        text::cut("invalid user "@ + (user + " from "@ + ip + " port "@ + rest), " from "@) == Some(
            ("invalid user "@ + user, ip + " port "@ + rest),
        ),
        before(ip + " port "@ + rest, " port "@) == ip,
        text::after_prefix("invalid user "@ + user, "invalid user "@) == Some(user),
{
    lemma_named(user, ip, rest);
    assert("invalid user "@.len() == 13) by {
        reveal_strlit("invalid user ");
    }
    let tip = ip + " port "@ + rest;
    let name = "invalid user "@ + user;
    text::law_prefix_and_rest("invalid user "@, user);
    assert forall|j: int| 0 <= j < name.len() implies !text::occurs_at(
        name + " from "@ + tip,
        " from "@,
        j,
    ) by {
        lemma_no_from_before(user, tip, j);
    }
    text::lemma_cut_here(name, " from "@, tip);
    assert("invalid user "@ + (user + " from "@ + ip + " port "@ + rest) =~= name + " from "@
        + tip);
}

/// The use of sudo is read with its user, and has no address.
pub proof fn law_sudo_is_read(
    l: journald::LineView,
    user: Seq<char>,
    mid: Seq<char>,
    command: Seq<char>,
)
    requires
        l.ident == "sudo"@,
        user.len() > 0,
        !user.contains(' ') && !user.contains('C'),
        !mid.contains('C'),
        command.len() > 0 && command[0] != 'C',
        l.message == user + " : "@ + mid + "COMMAND="@ + command,
    ensures
        auth_of(l) == Some(
            (AuthView { kind: AuthKind::SudoUsed, user, ip: seq![], detail: l.message }),
        ),
{
    reveal_strlit(" : ");
    reveal_strlit("COMMAND=");
    reveal_strlit("sudo");
    reveal_strlit("sshd");
    assert("sudo"@[1] == 'u' && "sshd"@[1] == 's');
    assert(l.message =~= user + " : "@ + (mid + "COMMAND="@ + command));
    text::law_cut_at_the_first(user, " : "@, mid + "COMMAND="@ + command);
    let head = user + " : "@ + mid;
    assert(!head.contains('C')) by {
        if head.contains('C') {
            let i = choose|i: int| 0 <= i < head.len() && head[i] == 'C';
            if i < user.len() {
                assert(user[i] == 'C');
            } else if i < user.len() + 3 {
                assert(head[i] == " : "@[i - user.len()]);
            } else {
                assert(mid[i - user.len() - 3] == 'C');
            }
        }
    }
    text::law_cut_at_the_first(head, "COMMAND="@, command);
    text::lemma_find_from(command, "COMMAND="@, 0);
    if text::find(command, "COMMAND="@) == Some(0int) {
        assert(command.subrange(0, 8)[0] == command[0]);
    }
}

/// A root shell opened with su is a root login without an address, wherever
/// the words stand in the message.
pub proof fn law_su_is_read(l: journald::LineView, a: Seq<char>, b: Seq<char>)
    requires
        l.ident == "su"@,
    ensures
        l.message == a + "pam_unix(su:session): session opened for user root"@ + b ==> auth_of(l)
            == Some(
            (AuthView {
                kind: AuthKind::RootLogin,
                user: "root"@,
                ip: seq![],
                detail: l.message,
            }),
        ),
        !text::holds(l.message, "pam_unix(su:session): session opened for user root"@)
            ==> auth_of(l) is None,
{
    reveal_strlit("sudo");
    reveal_strlit("sshd");
    reveal_strlit("su");
    assert("su"@.len() == 2 && "sudo"@.len() == 4 && "sshd"@.len() == 4);
    let pat = "pam_unix(su:session): session opened for user root"@;
    let s = a + pat + b;
    let n = a.len() as int;
    assert(s.subrange(n, n + pat.len()) =~= pat);
    assert(text::occurs_at(s, pat, n));
}

/// Other programs, and other messages of sshd, tell of no login.
pub proof fn law_other_lines_are_no_logins(l: journald::LineView)
    ensures
        l.ident != "sshd"@ && l.ident != "sudo"@ && l.ident != "su"@ ==> auth_of(l) is None,
        l.ident == "sshd"@ && !"Accepted "@.is_prefix_of(l.message)
            && !"Failed password"@.is_prefix_of(l.message)
            && !"Failed keyboard-interactive"@.is_prefix_of(l.message)
            && !"error: maximum authentication attempts exceeded"@.is_prefix_of(l.message)
            ==> auth_of(l) is None,
        l.ident == "sshd"@ ==> (auth_of(l) matches Some(a) ==> a.user.len() > 0 && a.ip.len() > 0
            && a.detail == l.message && (a.kind is RootLogin ==> a.user == "root"@) && (
        a.kind is SshLogin ==> a.user != "root"@) && (a.kind is SshFailed
            <==> !"Accepted "@.is_prefix_of(l.message)) && !(a.kind is SudoUsed)),
{
    lemma_is_prefix(l.message, "Accepted "@);
    lemma_is_prefix(l.message, "Failed password"@);
    lemma_is_prefix(l.message, "Failed keyboard-interactive"@);
    lemma_is_prefix(l.message, "error: maximum authentication attempts exceeded"@);
}

proof fn lemma_is_prefix(s: Seq<char>, pat: Seq<char>)
    ensures
        text::starts(s, pat) <==> pat.is_prefix_of(s),
{
    if text::starts(s, pat) {
        assert(s.subrange(0, pat.len() as int) == pat);
    }
    if pat.is_prefix_of(s) {
        assert(s.subrange(0, pat.len() as int) =~= pat);
    }
}

} // verus!
