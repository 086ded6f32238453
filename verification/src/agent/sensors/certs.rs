//! TLS certificates that expire.

use vstd::prelude::*;

use crate::agent::cmd;
use crate::agent::cmd::CommandRunner;
use crate::civil;
use crate::common;
use crate::common::{AgentEvent, Config, EventKind, EventView, Severity};
use crate::seqs;
use crate::text;

verus! {

/// The time of a line "notAfter=<date> GMT".
pub open spec fn enddate(line: Seq<char>) -> Option<int> {
    match text::after_prefix(line, "notAfter="@) {
        Some(rest) => match text::before_suffix(rest, " GMT"@) {
            Some(date) => civil::gm_date(date),
            None => None,
        },
        None => None,
    }
}

/// "notAfter=Sep 16 12:00:00 2026 GMT" in unix seconds.
pub fn parse_enddate(line: &str) -> (r: Option<i64>)
    ensures
        match r {
            Some(t) => enddate(line@) == Some(t as int),
            None => enddate(line@) is None,
        },
{
    let rest = text::strip_prefix(line, "notAfter=")?;
    let date = text::strip_suffix(rest.as_str(), " GMT")?;
    civil::parse_gm_date(date.as_str())
}

/// The larger of two numbers.
pub open spec fn larger(a: int, b: int) -> int {
    if a >= b {
        a
    } else {
        b
    }
}

/// How serious the expiry at `not_after` is at `now`, both in seconds:
/// Critical within `crit_days` (at least one) or already expired, Warning
/// within `warn_days` (at least as many), Info otherwise.
pub open spec fn expiry_severity(
    not_after: int,
    now: int,
    crit_days: int,
    warn_days: int,
) -> Severity {
    let crit = larger(crit_days, 1);
    let warn = larger(warn_days, crit);
    if not_after - now < crit * 86400 {
        Severity::Critical
    } else if not_after - now < warn * 86400 {
        Severity::Warning
    } else {
        Severity::Info
    }
}

/// Warning when expiring within warn_days, Critical within crit_days or
/// already expired; Info (no event) otherwise.
pub fn cert_severity(not_after: i64, now: i64, cfg: &Config) -> (r: Severity)
    ensures
        r == expiry_severity(
            not_after as int,
            now as int,
            cfg.cert_crit_days as int,
            cfg.cert_warn_days as int,
        ),
{
    let secs_left: i128 = not_after as i128 - now as i128;
    let crit: i64 = if cfg.cert_crit_days >= 1 {
        cfg.cert_crit_days
    } else {
        1
    };
    let warn: i64 = if cfg.cert_warn_days >= crit {
        cfg.cert_warn_days
    } else {
        crit
    };
    if secs_left < (crit as i128) * 86400 {
        Severity::Critical
    } else if secs_left < (warn as i128) * 86400 {
        Severity::Warning
    } else {
        Severity::Info
    }
}

/// Time only makes an expiry more serious.
pub proof fn law_expiry_only_worsens(
    not_after: int,
    now: int,
    later: int,
    crit_days: int,
    warn_days: int,
)
    requires
        now <= later,
    ensures
        common::rank(expiry_severity(not_after, now, crit_days, warn_days)) <= common::rank(
            expiry_severity(not_after, later, crit_days, warn_days),
        ),
{
}

/// What the file system says of a configured path: the files that match it as
/// a pattern, and whether it is a file itself.
pub struct PathLookup {
    pub path: String,
    pub matches: Vec<String>,
    pub is_file: bool,
}

/// The certificate files of one configured path: the matches of a pattern, or
/// the file itself.
pub open spec fn lookup_files(l: PathLookup) -> Seq<Seq<char>> {
    if text::holds(l.path@, "*"@) {
        text::views(l.matches@)
    } else if l.is_file {
        seq![l.path@]
    } else {
        seq![]
    }
}

/// The certificate files of all configured paths.
pub open spec fn all_files(ls: Seq<PathLookup>) -> Seq<Seq<char>>
    decreases ls.len(),
{
    if ls.len() == 0 {
        seq![]
    } else {
        all_files(ls.drop_last()) + lookup_files(ls.last())
    }
}

/// Expand the configured paths (files or globs) into concrete cert paths.
pub fn expand_paths(raw: &Vec<PathLookup>) -> (out: Vec<String>)
    ensures
        text::views(out@) == all_files(raw@),
{
    let mut out: Vec<String> = Vec::new();
    let mut i: usize = 0;
    assert(text::views(out@) =~= all_files(raw@.take(0)));
    while i < raw.len()
        invariant
            i <= raw@.len(),
            text::views(out@) == all_files(raw@.take(i as int)),
        decreases raw@.len() - i,
    {
        proof {
            seqs::lemma_take_step(raw@, i as int);
        }
        let ghost start = text::views(out@);
        let l = &raw[i];
        if text::contains_text(l.path.as_str(), "*") {
            let mut j: usize = 0;
            assert(start + text::views(l.matches@).take(0) =~= start);
            while j < l.matches.len()
                invariant
                    j <= l.matches@.len(),
                    text::views(out@) == start + text::views(l.matches@).take(j as int),
                decreases l.matches@.len() - j,
            {
                let ghost before = out@;
                out.push(l.matches[j].clone());
                assert(text::views(out@) == text::views(before).push(l.matches@[j as int]@));
                assert(text::views(out@) =~= start + text::views(l.matches@).take(j + 1));
                j = j + 1;
            }
            assert(text::views(l.matches@).take(l.matches@.len() as int) =~= text::views(
                l.matches@,
            ));
        } else if l.is_file {
            let ghost before = out@;
            out.push(l.path.clone());
            assert(text::views(out@) == text::views(before).push(l.path@));
            assert(text::views(out@) =~= start + seq![l.path@]);
        } else {
            assert(text::views(out@) =~= start + Seq::<Seq<char>>::empty());
        }
        i = i + 1;
    }
    assert(raw@.take(raw@.len() as int) == raw@);
    out
}

/// Default certificate locations scanned when none are configured.
pub fn default_cert_paths() -> (r: Vec<String>)
    ensures
        text::views(r@) == seq![
            "/etc/letsencrypt/live/*/cert.pem"@,
            "/etc/ssl/private/*.pem"@,
            "/etc/nginx/*.pem"@,
        ],
{
    let mut v: Vec<String> = Vec::new();
    v.push(text::owned("/etc/letsencrypt/live/*/cert.pem"));
    v.push(text::owned("/etc/ssl/private/*.pem"));
    v.push(text::owned("/etc/nginx/*.pem"));
    assert(text::views(v@) =~= seq![
        "/etc/letsencrypt/live/*/cert.pem"@,
        "/etc/ssl/private/*.pem"@,
        "/etc/nginx/*.pem"@,
    ]);
    v
}

/// The arguments that make openssl print the end date of a certificate.
pub open spec fn cert_args(path: Seq<char>) -> Seq<Seq<char>> {
    seq!["x509"@, "-enddate"@, "-noout"@, "-in"@, path]
}

/// The time of the first line that gives an end date.
pub open spec fn first_enddate(ls: Seq<Seq<char>>) -> Option<int>
    decreases ls.len(),
{
    if ls.len() == 0 {
        None
    } else if enddate(ls[0]) is Some {
        enddate(ls[0])
    } else {
        first_enddate(ls.skip(1))
    }
}

/// The event of a certificate: what openssl printed of it, or nothing when it
/// could not be read.
pub open spec fn cert_event_of(
    path: Seq<char>,
    out: Option<Seq<char>>,
    crit_days: int,
    warn_days: int,
    now: int,
    ts: i64,
    host: Seq<char>,
) -> Option<EventView> {
    match out {
        Some(t) => match first_enddate(text::lines(t)) {
            Some(not_after) => {
                let sev = expiry_severity(not_after, now, crit_days, warn_days);
                let days_left = civil::quot(not_after - now, 86400);
                if sev is Info {
                    None
                } else {
                    Some(
                        common::event_of(
                            "cert-"@ + path + "-"@ + text::dec_int(ts as int),
                            ts,
                            host,
                            "cert:"@ + path,
                            EventKind::CertExpiring,
                            sev,
                            "certificate "@ + path + " expires in "@ + text::dec_int(days_left)
                                + " days"@,
                            "certs"@,
                            "Path="@ + path + " NotAfter="@ + text::dec_int(not_after)
                                + " DaysLeft="@ + text::dec_int(days_left),
                        ),
                    )
                }
            },
            None => None,
        },
        None => None,
    }
}

fn first_enddate_in(out: &str) -> (r: Option<i64>)
    ensures
        match r {
            Some(t) => first_enddate(text::lines(out@)) == Some(t as int),
            None => first_enddate(text::lines(out@)) is None,
        },
{
    let ls = text::split_lines(out);
    let ghost all = text::lines(out@);
    let mut i: usize = 0;
    assert(all.skip(0) == all);
    while i < ls.len()
        invariant
            i <= ls@.len(),
            all == text::lines(out@),
            text::views(ls@) == all,
            first_enddate(all.skip(i as int)) == first_enddate(all),
        decreases ls@.len() - i,
    {
        assert(all.skip(i as int)[0] == ls@[i as int]@);
        match parse_enddate(ls[i].as_str()) {
            Some(t) => {
                return Some(t);
            },
            None => {},
        }
        assert(all.skip(i as int).skip(1) == all.skip(i + 1));
        i = i + 1;
    }
    None
}

/// The text of an answer; nothing for a failure.
pub open spec fn answer_text(out: Result<String, String>) -> Option<Seq<char>> {
    match out {
        Ok(t) => Some(t@),
        Err(_) => None,
    }
}

/// The event of a certificate, from what openssl answered for it.
pub fn cert_event(
    path: &str,
    out: &Result<String, String>,
    cfg: &Config,
    now: i64,
    ts: i64,
    host_id: &str,
) -> (r: Option<AgentEvent>)
    ensures
        match r {
            Some(e) => cert_event_of(
                path@,
                answer_text(*out),
                cfg.cert_crit_days as int,
                cfg.cert_warn_days as int,
                now as int,
                ts,
                host_id@,
            ) == Some(e@),
            None => cert_event_of(
                path@,
                answer_text(*out),
                cfg.cert_crit_days as int,
                cfg.cert_warn_days as int,
                now as int,
                ts,
                host_id@,
            ) is None,
        },
{
    let t = match out {
        Ok(t) => t,
        Err(_) => {
            return None;
        },
    };
    let not_after: i64 = first_enddate_in(t.as_str())?;
    let sev = cert_severity(not_after, now, cfg);
    if sev == Severity::Info {
        return None;
    }
    let days_left: i64 = ((not_after as i128 - now as i128) / 86400) as i64;
    Some(
        common::make_event(
            text::owned("cert-").concat(path).concat("-").concat(text::dec_i64(ts).as_str()),
            ts,
            host_id,
            text::owned("cert:").concat(path),
            EventKind::CertExpiring,
            sev,
            text::owned("certificate ").concat(path).concat(" expires in ").concat(
                text::dec_i64(days_left).as_str(),
            ).concat(" days"),
            "certs",
            text::owned("Path=").concat(path).concat(" NotAfter=").concat(
                text::dec_i64(not_after).as_str(),
            ).concat(" DaysLeft=").concat(text::dec_i64(days_left).as_str()),
        ),
    )
}

/// The events of certificates, from what openssl answered for each.
pub open spec fn cert_events(
    paths: Seq<Seq<char>>,
    outs: Seq<Option<Seq<char>>>,
    crit_days: int,
    warn_days: int,
    now: int,
    ts: i64,
    host: Seq<char>,
) -> Seq<EventView>
    decreases paths.len(),
{
    if paths.len() == 0 {
        seq![]
    } else {
        let before = cert_events(
            paths.drop_last(),
            outs.drop_last(),
            crit_days,
            warn_days,
            now,
            ts,
            host,
        );
        match cert_event_of(paths.last(), outs.last(), crit_days, warn_days, now, ts, host) {
            Some(e) => before.push(e),
            None => before,
        }
    }
}

/// The texts of a list of answers.
pub open spec fn answer_texts(outs: Seq<Result<String, String>>) -> Seq<Option<Seq<char>>> {
    outs.map_values(|o: Result<String, String>| answer_text(o))
}

/// `outs` are answers that the runner can give for the certificates `paths`.
pub open spec fn cert_answers<R: CommandRunner>(
    runner: R,
    paths: Seq<Seq<char>>,
    outs: Seq<Result<String, String>>,
) -> bool {
    &&& outs.len() == paths.len()
    &&& forall|i: int|
        0 <= i < paths.len() ==> cmd::answers(runner, cert_args(paths[i]), #[trigger] outs[i])
}

/// Ask openssl for the end date of each certificate.
pub fn ask_certs<R: CommandRunner>(certs: &Vec<String>, runner: &R) -> (outs: Vec<
    Result<String, String>,
>)
    ensures
        cert_answers(*runner, text::views(certs@), outs@),
{
    let mut outs: Vec<Result<String, String>> = Vec::new();
    let mut i: usize = 0;
    while i < certs.len()
        invariant
            i <= certs@.len(),
            outs@.len() == i,
            forall|j: int|
                0 <= j < i ==> cmd::answers(
                    *runner,
                    cert_args(text::views(certs@)[j]),
                    #[trigger] outs@[j],
                ),
        decreases certs@.len() - i,
    {
        let mut args: Vec<&str> = Vec::new();
        args.push("x509");
        args.push("-enddate");
        args.push("-noout");
        args.push("-in");
        args.push(certs[i].as_str());
        assert(cmd::arg_views(args@) =~= cert_args(text::views(certs@)[i as int]));
        let out = cmd::run_args(runner, &args);
        outs.push(out);
        i = i + 1;
    }
    outs
}

/// The events of certificates, from the answers for them.
pub fn cert_pass(
    certs: &Vec<String>,
    outs: &Vec<Result<String, String>>,
    cfg: &Config,
    now: i64,
    ts: i64,
    host_id: &str,
) -> (evs: Vec<AgentEvent>)
    requires
        outs@.len() == certs@.len(),
    ensures
        common::events(evs@) == cert_events(
            text::views(certs@),
            answer_texts(outs@),
            cfg.cert_crit_days as int,
            cfg.cert_warn_days as int,
            now as int,
            ts,
            host_id@,
        ),
{
    let ghost paths = text::views(certs@);
    let ghost texts = answer_texts(outs@);
    let mut evs: Vec<AgentEvent> = Vec::new();
    let mut i: usize = 0;
    assert(common::events(evs@) =~= seq![]);
    while i < certs.len()
        invariant
            i <= certs@.len(),
            outs@.len() == certs@.len(),
            paths == text::views(certs@),
            texts == answer_texts(outs@),
            common::events(evs@) == cert_events(
                paths.take(i as int),
                texts.take(i as int),
                cfg.cert_crit_days as int,
                cfg.cert_warn_days as int,
                now as int,
                ts,
                host_id@,
            ),
        decreases certs@.len() - i,
    {
        proof {
            seqs::lemma_take_step(paths, i as int);
            seqs::lemma_take_step(texts, i as int);
        }
        let ghost before = evs@;
        match cert_event(certs[i].as_str(), &outs[i], cfg, now, ts, host_id) {
            Some(e) => {
                evs.push(e);
                proof {
                    common::lemma_events_push(before, e);
                }
            },
            None => {},
        }
        i = i + 1;
    }
    assert(paths.take(certs@.len() as int) == paths);
    assert(texts.take(certs@.len() as int) == texts);
    evs
}

/// Scan certs; emit CertExpiring events for those past the thresholds.
/// Whatever openssl answers for them, the events are those of its answers.
pub fn scan_certs<R: CommandRunner>(
    certs: &Vec<String>,
    cfg: &Config,
    now: i64,
    ts: i64,
    host_id: &str,
    runner: &R,
) -> (evs: Vec<AgentEvent>)
    ensures
        exists|outs: Seq<Result<String, String>>| #[trigger]
            cert_answers(*runner, text::views(certs@), outs) && common::events(evs@)
                == cert_events(
                text::views(certs@),
                answer_texts(outs),
                cfg.cert_crit_days as int,
                cfg.cert_warn_days as int,
                now as int,
                ts,
                host_id@,
            ),
{
    let outs = ask_certs(certs, runner);
    cert_pass(certs, &outs, cfg, now, ts, host_id)
}

/// A certificate that has less than the critical days left, or has expired, is
/// critical; one that has less than the warning days left is a warning; one
/// that has more of both is not reported. A day is always critical.
pub proof fn law_severity_by_days_left(
    not_after: int,
    now: int,
    crit_days: int,
    warn_days: int,
    days: int,
    secs: int,
)
    requires
        not_after - now == days * 86400 + secs,
        0 <= secs < 86400,
    ensures
        ({
            let s = expiry_severity(not_after, now, crit_days, warn_days);
            &&& s is Critical <==> days < 1 || days < crit_days
            &&& s is Warning <==> 1 <= days && crit_days <= days && days < warn_days
            &&& s is Info <==> 1 <= days && crit_days <= days && warn_days <= days
        }),
{
}

/// Some event of a list tells of a certificate's expiry with a severity.
pub open spec fn tells_of_expiry(
    evs: Seq<EventView>,
    path: Seq<char>,
    severity: Severity,
    ts: i64,
    host: Seq<char>,
) -> bool {
    exists|k: int|
        0 <= k < evs.len() && (#[trigger] evs[k]).kind is CertExpiring && evs[k].key == "cert:"@
            + path && evs[k].severity == severity && evs[k].ts == ts && evs[k].host_id == host
}

/// Each certificate for which openssl printed an end date is reported with the
/// severity of its expiry: Critical with less than a day or the critical days
/// left, Warning with less than the warning days.
pub proof fn law_expiring_certificates_are_reported(
    paths: Seq<Seq<char>>,
    outs: Seq<Option<Seq<char>>>,
    crit_days: int,
    warn_days: int,
    now: int,
    ts: i64,
    host: Seq<char>,
    i: int,
    not_after: int,
)
    requires
        outs.len() == paths.len(),
        0 <= i < paths.len(),
        outs[i] is Some,
        first_enddate(text::lines(outs[i]->0)) == Some(not_after),
        not_after - now < 86400 || not_after - now < crit_days * 86400 || not_after - now
            < warn_days * 86400,
    ensures
        tells_of_expiry(
            cert_events(paths, outs, crit_days, warn_days, now, ts, host),
            paths[i],
            if not_after - now < 86400 || not_after - now < crit_days * 86400 {
                Severity::Critical
            } else {
                Severity::Warning
            },
            ts,
            host,
        ),
    decreases paths.len(),
{
    let (ps, os) = (paths.drop_last(), outs.drop_last());
    let evs = cert_events(paths, outs, crit_days, warn_days, now, ts, host);
    let before = cert_events(ps, os, crit_days, warn_days, now, ts, host);
    let severity = if not_after - now < 86400 || not_after - now < crit_days * 86400 {
        Severity::Critical
    } else {
        Severity::Warning
    };
    if i < ps.len() {
        assert(ps[i] == paths[i] && os[i] == outs[i]);
        law_expiring_certificates_are_reported(
            ps,
            os,
            crit_days,
            warn_days,
            now,
            ts,
            host,
            i,
            not_after,
        );
        let k = choose|k: int|
            0 <= k < before.len() && (#[trigger] before[k]).kind is CertExpiring && before[k].key
                == "cert:"@ + paths[i] && before[k].severity == severity && before[k].ts == ts
                && before[k].host_id == host;
        assert(evs[k] == before[k]);
    } else {
        assert(paths.last() == paths[i] && outs.last() == outs[i]);
        let e = cert_event_of(paths[i], outs[i], crit_days, warn_days, now, ts, host);
        assert(e is Some);
        assert(evs == before.push(e->0));
        assert(evs[before.len() as int] == e->0);
    }
}

/// Certificates that openssl could not read, that have no end date, or that
/// have both the critical and the warning days left, and a day at least, are
/// not reported.
pub proof fn law_valid_certificates_are_quiet(
    paths: Seq<Seq<char>>,
    outs: Seq<Option<Seq<char>>>,
    crit_days: int,
    warn_days: int,
    now: int,
    ts: i64,
    host: Seq<char>,
)
    requires
        outs.len() == paths.len(),
        forall|i: int|
            0 <= i < outs.len() ==> (#[trigger] outs[i] matches Some(t) ==> (first_enddate(
                text::lines(t),
            ) matches Some(not_after) ==> not_after - now >= 86400 && not_after - now >= crit_days
                * 86400 && not_after - now >= warn_days * 86400)),
    ensures
        cert_events(paths, outs, crit_days, warn_days, now, ts, host).len() == 0,
    decreases paths.len(),
{
    if paths.len() > 0 {
        let os = outs.drop_last();
        assert forall|i: int| 0 <= i < os.len() implies (#[trigger] os[i] matches Some(t) ==> (
        first_enddate(text::lines(t)) matches Some(not_after) ==> not_after - now >= 86400
            && not_after - now >= crit_days * 86400 && not_after - now >= warn_days * 86400)) by {
            assert(os[i] == outs[i]);
        }
        law_valid_certificates_are_quiet(
            paths.drop_last(),
            os,
            crit_days,
            warn_days,
            now,
            ts,
            host,
        );
        assert(outs.last() == outs[outs.len() - 1]);
    }
}

/// The end date that counts is that of the first line that gives one: what
/// stands between "notAfter=" and " GMT".
pub proof fn law_end_date_is_read(before: Seq<Seq<char>>, date: Seq<char>, after: Seq<Seq<char>>)
    requires
        forall|i: int| 0 <= i < before.len() ==> enddate(#[trigger] before[i]) is None,
        civil::gm_date(date) is Some,
    ensures
        first_enddate(before + seq!["notAfter="@ + date + " GMT"@] + after) == civil::gm_date(date),
    decreases before.len(),
{
    let line = "notAfter="@ + date + " GMT"@;
    let all = before + seq![line] + after;
    if before.len() > 0 {
        assert(all[0] == before[0]);
        let rest = before.skip(1);
        assert forall|i: int| 0 <= i < rest.len() implies enddate(#[trigger] rest[i]) is None by {
            assert(rest[i] == before[i + 1]);
        }
        law_end_date_is_read(rest, date, after);
        assert(all.skip(1) =~= rest + seq![line] + after);
    } else {
        assert(all[0] == line);
        text::law_prefix_and_rest("notAfter="@, date + " GMT"@);
        text::law_prefix_and_rest(" GMT"@, date);
        assert(line =~= "notAfter="@ + (date + " GMT"@));
    }
}

/// The event of a certificate tells how many whole days are left; of one that
/// has expired, how many have passed, as a negative number.
pub proof fn law_days_left_are_told(
    path: Seq<char>,
    t: Seq<char>,
    not_after: int,
    crit_days: int,
    warn_days: int,
    now: int,
    ts: i64,
    host: Seq<char>,
)
    requires
        first_enddate(text::lines(t)) == Some(not_after),
    ensures
        cert_event_of(path, Some(t), crit_days, warn_days, now, ts, host) matches Some(e) ==> {
            &&& not_after >= now ==> e.summary == "certificate "@ + path + " expires in "@
                + text::dec(((not_after - now) / 86400) as nat) + " days"@
            &&& now - not_after >= 86400 ==> e.summary == "certificate "@ + path + " expires in "@
                + seq!['-'] + text::dec(((now - not_after) / 86400) as nat) + " days"@
        },
        cert_event_of(path, None, crit_days, warn_days, now, ts, host) is None,
{
    if now - not_after >= 86400 {
        let k = (now - not_after) / 86400;
        assert(civil::quot(not_after - now, 86400) == -k);
        assert("certificate "@ + path + " expires in "@ + (seq!['-'] + text::dec(k as nat))
            =~= "certificate "@ + path + " expires in "@ + seq!['-'] + text::dec(k as nat));
    }
}

/// A path with a star stands for the files that match it, any other for itself
/// where it is a file; no other files are looked at.
pub proof fn law_paths_are_expanded(ls: Seq<PathLookup>, path: Seq<char>)
    ensures
        all_files(ls).contains(path) <==> exists|i: int|
            0 <= i < ls.len() && (if (#[trigger] ls[i]).path@.contains('*') {
                text::views(ls[i].matches@).contains(path)
            } else {
                ls[i].is_file && ls[i].path@ == path
            }),
    decreases ls.len(),
{
    if ls.len() > 0 {
        let init = ls.drop_last();
        law_paths_are_expanded(init, path);
        let l = ls.last();
        assert(l == ls[ls.len() - 1]);
        lemma_star(l.path@);
        let (a, b) = (all_files(init), lookup_files(l));
        if !l.path@.contains('*') && l.is_file {
            assert(b[0] == l.path@);
        }
        if a.contains(path) {
            let k = choose|k: int| 0 <= k < a.len() && a[k] == path;
            assert((a + b)[k] == path);
            let i = choose|i: int|
                0 <= i < init.len() && (if (#[trigger] init[i]).path@.contains('*') {
                    text::views(init[i].matches@).contains(path)
                } else {
                    init[i].is_file && init[i].path@ == path
                });
            assert(ls[i] == init[i]);
        }
        if b.contains(path) {
            let k = choose|k: int| 0 <= k < b.len() && b[k] == path;
            assert((a + b)[a.len() + k] == path);
        }
        if (a + b).contains(path) {
            let k = choose|k: int| 0 <= k < (a + b).len() && (a + b)[k] == path;
            if k < a.len() {
                assert(a[k] == path);
            } else {
                assert(b[k - a.len()] == path);
            }
        }
        if exists|i: int|
            0 <= i < ls.len() && (if (#[trigger] ls[i]).path@.contains('*') {
                text::views(ls[i].matches@).contains(path)
            } else {
                ls[i].is_file && ls[i].path@ == path
            }) {
            let i = choose|i: int|
                0 <= i < ls.len() && (if (#[trigger] ls[i]).path@.contains('*') {
                    text::views(ls[i].matches@).contains(path)
                } else {
                    ls[i].is_file && ls[i].path@ == path
                });
            if i < init.len() {
                assert(init[i] == ls[i]);
            }
        }
    }
}

proof fn lemma_star(s: Seq<char>)
    ensures
        text::holds(s, "*"@) <==> s.contains('*'),
{
    reveal_strlit("*");
    assert("*"@ =~= seq!['*']);
    if s.contains('*') {
        let i = choose|i: int| 0 <= i < s.len() && s[i] == '*';
        assert(s.subrange(i, i + 1) =~= seq!['*']);
        assert(text::occurs_at(s, "*"@, i));
    }
    if text::holds(s, "*"@) {
        let i = choose|i: int| text::occurs_at(s, "*"@, i);
        assert(s.subrange(i, i + 1)[0] == s[i]);
    }
}

} // verus!
