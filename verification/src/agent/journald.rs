//! Journal lines: reading them and telling service starts.

use vstd::prelude::*;

use crate::agent::cmd;
use crate::agent::cmd::CommandRunner;
use crate::civil;
use crate::json;
use crate::seqs;
use crate::text;

verus! {

/// One journal entry, reduced to what the sensors need.
#[derive(Debug, Clone, PartialEq)]
pub struct JournalLine {
    /// Unix millis.
    pub ts_ms: i64,
    pub ident: String,
    pub pid: i64,
    pub message: String,
}

/// What a `JournalLine` says.
#[verifier::ext_equal]
pub struct LineView {
    pub ts_ms: i64,
    pub ident: Seq<char>,
    pub pid: i64,
    pub message: Seq<char>,
}

impl View for JournalLine {
    type V = LineView;

    open spec fn view(&self) -> LineView {
        LineView {
            ts_ms: self.ts_ms,
            ident: self.ident@,
            pid: self.pid,
            message: self.message@,
        }
    }
}

/// What each line of a list says.
pub open spec fn line_views(v: Seq<JournalLine>) -> Seq<LineView> {
    v.map_values(|l: JournalLine| l@)
}

/// A text, or the empty text where there is none.
pub open spec fn or_empty(t: Option<Seq<char>>) -> Seq<char> {
    match t {
        Some(s) => s,
        None => seq![],
    }
}

/// The journal line of the four texts that a JSON entry holds: its timestamp
/// in microseconds, its identifier, its process id and its message. There is
/// none without a timestamp that is a number; the others have defaults.
pub open spec fn line_of(
    ts: Option<Seq<char>>,
    ident: Option<Seq<char>>,
    pid: Option<Seq<char>>,
    message: Option<Seq<char>>,
) -> Option<LineView> {
    match ts {
        Some(t) => match civil::i64_value(t) {
            Some(us) => Some(
                LineView {
                    ts_ms: civil::quot(us, 1000) as i64,
                    ident: or_empty(ident),
                    pid: match pid {
                        Some(p) => match civil::i64_value(p) {
                            Some(n) => n as i64,
                            None => 0,
                        },
                        None => 0,
                    },
                    message: or_empty(message),
                },
            ),
            None => None,
        },
        None => None,
    }
}

/// Make the journal line of the four texts of an entry.
pub fn make_line(
    ts: Option<String>,
    ident: Option<String>,
    pid: Option<String>,
    message: Option<String>,
) -> (r: Option<JournalLine>)
    ensures
        match r {
            Some(l) => line_of(
                text::opt_view(ts),
                text::opt_view(ident),
                text::opt_view(pid),
                text::opt_view(message),
            ) == Some(l@),
            None => line_of(
                text::opt_view(ts),
                text::opt_view(ident),
                text::opt_view(pid),
                text::opt_view(message),
            ) is None,
        },
{
    let t = ts?;
    let us: i64 = text::parse_i64(t.as_str())?;
    let pid_num: i64 = match pid {
        Some(p) => match text::parse_i64(p.as_str()) {
            Some(n) => n,
            None => 0,
        },
        None => 0,
    };
    let l = JournalLine {
        ts_ms: us / 1000,
        ident: match ident {
            Some(s) => s,
            None => String::new(),
        },
        pid: pid_num,
        message: match message {
            Some(s) => s,
            None => String::new(),
        },
    };
    Some(l)
}

/// The journal line of one line of `journalctl -o json`.
pub open spec fn json_line(s: Seq<char>) -> Option<LineView> {
    line_of(
        json::string_member(s, "__REALTIME_TIMESTAMP"@),
        json::string_member(s, "SYSLOG_IDENTIFIER"@),
        json::string_member(s, "_PID"@),
        json::string_member(s, "MESSAGE"@),
    )
}

/// The journal lines of the output of `journalctl -o json`. Lines that are no
/// entry are skipped.
pub open spec fn journal_of(s: Seq<char>) -> Seq<LineView> {
    seqs::picked(text::lines(s), |l: Seq<char>| json_line(l))
}

/// Parse `journalctl -o json` output: one JSON object per line. Non-JSON and
/// empty lines are skipped (fail-open). The argument is the output itself:
/// where a file path is given instead, the runner has read the file.
pub fn parse_journal(s: &str) -> (r: Result<Vec<JournalLine>, String>)
    ensures
        r is Ok,
        line_views(r->Ok_0@) == journal_of(s@),
{
    let ls = text::split_lines(s);
    let ghost all = text::lines(s@);
    let ghost f = |l: Seq<char>| json_line(l);
    let mut out: Vec<JournalLine> = Vec::new();
    let mut i: usize = 0;
    assert(line_views(out@) == seqs::picked(all.take(0), f));
    while i < ls.len()
        invariant
            i <= ls@.len(),
            text::views(ls@) == all,
            f == (|l: Seq<char>| json_line(l)),
            line_views(out@) == seqs::picked(all.take(i as int), f),
        decreases ls@.len() - i,
    {
        proof {
            seqs::lemma_take_step(all, i as int);
            assert(all[i as int] == ls@[i as int]@);
        }
        let line = ls[i].as_str();
        let made = make_line(
            json::get_string(line, "__REALTIME_TIMESTAMP"),
            json::get_string(line, "SYSLOG_IDENTIFIER"),
            json::get_string(line, "_PID"),
            json::get_string(line, "MESSAGE"),
        );
        let ghost before = out@;
        match made {
            Some(l) => {
                out.push(l);
                assert(line_views(out@) == line_views(before).push(l@));
            },
            None => {},
        }
        i = i + 1;
    }
    assert(all.take(ls@.len() as int) == all);
    Ok(out)
}

/// The unit that a line reports as started: "Started <unit>." from systemd,
/// for a .service unit.
pub open spec fn started_unit(l: LineView) -> Option<Seq<char>> {
    match text::after_prefix(l.message, "Started "@) {
        Some(rest) => match text::before_suffix(rest, "."@) {
            Some(u) => if l.ident == "systemd"@ && text::ends(u, ".service"@) {
                Some(u)
            } else {
                None
            },
            None => None,
        },
        None => None,
    }
}

/// "Started <unit>." from systemd gives the unit name (the ServiceRestarted
/// signal). Only .service units; "Stopped" and other lines give None.
pub fn service_start(line: &JournalLine) -> (r: Option<String>)
    ensures
        text::opt_view(r) == started_unit(line@),
{
    if !text::same(line.ident.as_str(), "systemd") {
        return None;
    }
    let rest = text::strip_prefix(line.message.as_str(), "Started ")?;
    let unit = text::strip_suffix(rest.as_str(), ".")?;
    if text::ends_with(unit.as_str(), ".service") {
        Some(unit)
    } else {
        None
    }
}

/// The arguments of the journal's command for the lines since a time.
pub open spec fn since_args(since_secs: int, max_attempts: nat) -> Seq<Seq<char>> {
    let base = seq![
        "--no-pager"@,
        "-o"@,
        "json"@,
        "--since"@,
        "@"@ + text::dec_int(since_secs),
    ];
    if max_attempts > 0 {
        base + seq!["-n"@, text::dec(max_attempts)]
    } else {
        base
    }
}

/// Ask the journal's command for the lines since a time (unix seconds).
pub fn ask_since<R: CommandRunner>(runner: &R, since_secs: i64, max_attempts: u32) -> (out: Result<
    String,
    String,
>)
    ensures
        cmd::answers(*runner, since_args(since_secs as int, max_attempts as nat), out),
{
    let since_arg = text::owned("@").concat(text::dec_i64(since_secs).as_str());
    let attempts = text::dec_u64(max_attempts as u64);
    let mut args: Vec<&str> = Vec::new();
    args.push("--no-pager");
    args.push("-o");
    args.push("json");
    args.push("--since");
    args.push(since_arg.as_str());
    if max_attempts > 0 {
        args.push("-n");
        args.push(attempts.as_str());
    }
    assert(cmd::arg_views(args@) == since_args(since_secs as int, max_attempts as nat));
    cmd::run_args(runner, &args)
}

/// Poll the journal for lines with realtime timestamp >= since (unix
/// seconds). Whatever the runner answers to these arguments, its lines are
/// the result, or its error is.
pub fn read_since<R: CommandRunner>(runner: &R, since_secs: i64, max_attempts: u32) -> (r: Result<
    Vec<JournalLine>,
    String,
>)
    ensures
        exists|out: Result<String, String>|
            {
                &&& #[trigger] cmd::answers(
                    *runner,
                    since_args(since_secs as int, max_attempts as nat),
                    out,
                )
                &&& match out {
                    Ok(t) => r is Ok && line_views(r->Ok_0@) == journal_of(t@),
                    Err(e) => r is Err && r->Err_0@ == e@,
                }
            },
{
    match ask_since(runner, since_secs, max_attempts) {
        Ok(t) => parse_journal(t.as_str()),
        Err(e) => Err(e),
    }
}

/// A line is read from its members: the time in microseconds, whole
/// milliseconds of it, and what names the program, its process and the message,
/// where they are there. Without a time there is no line.
pub proof fn law_lines_are_read(
    us: int,
    ident: Option<Seq<char>>,
    pid: Option<int>,
    message: Option<Seq<char>>,
)
    requires
        0 <= us <= i64::MAX,
        pid matches Some(n) ==> i64::MIN <= n <= i64::MAX,
    ensures
        ({
            let shown = match pid {
                Some(n) => Some(text::dec_int(n)),
                None => None,
            };
            let r = line_of(Some(text::dec_int(us)), ident, shown, message);
            &&& r matches Some(l) && l.ts_ms == us / 1000 && (ident matches Some(t) ==> l.ident
                == t) && (message matches Some(t) ==> l.message == t) && (pid matches Some(n)
                ==> l.pid == n) && (ident is None ==> l.ident.len() == 0) && (message is None
                ==> l.message.len() == 0) && (pid is None ==> l.pid == 0)
            &&& line_of(None, ident, shown, message) is None
        }),
{
    text::law_numbers_read_back(us);
    if let Some(n) = pid {
        text::law_numbers_read_back(n);
    }
}

/// A service was started exactly when systemd says so: "Started <unit>." with
/// the unit a service.
pub proof fn law_starts_are_recognised(l: LineView, unit: Seq<char>)
    ensures
        started_unit(l) == Some(unit) <==> l.ident == "systemd"@ && l.message == "Started "@ + unit
            + "."@ && text::ends(unit, ".service"@),
{
    if l.message == "Started "@ + unit + "."@ {
        assert(l.message =~= "Started "@ + (unit + "."@));
        text::law_prefix_and_rest("Started "@, unit + "."@);
        text::law_prefix_and_rest("."@, unit);
    }
    if started_unit(l) == Some(unit) {
        let rest = text::after_prefix(l.message, "Started "@)->0;
        assert(l.message =~= "Started "@ + rest);
        assert(rest =~= unit + "."@);
        assert(l.message =~= "Started "@ + unit + "."@);
    }
}

/// The journal is asked from a time on, and for no more lines than a limit
/// where there is one.
pub proof fn law_the_journal_is_asked_from_a_time_on(since_secs: int, max_attempts: nat)
    ensures
        ({
            let a = since_args(since_secs, max_attempts);
            &&& a.contains("json"@)
            &&& a.len() >= 5 && a[3] == "--since"@ && a[4] == "@"@ + text::dec_int(since_secs)
            &&& max_attempts > 0 ==> a.len() == 7 && a[5] == "-n"@ && a[6] == text::dec(max_attempts)
            &&& max_attempts == 0 ==> a.len() == 5
        }),
{
    assert(since_args(since_secs, max_attempts)[2] == "json"@);
}

/// Every line of the journal that can be read is read.
pub proof fn law_journals_are_read_whole(s: Seq<char>, l: LineView)
    ensures
        journal_of(s).contains(l) <==> exists|i: int|
            0 <= i < text::lines(s).len() && json_line(#[trigger] text::lines(s)[i]) == Some(l),
{
    let f = |t: Seq<char>| json_line(t);
    let ls = text::lines(s);
    seqs::lemma_picked(ls, f, l);
    if exists|i: int| 0 <= i < ls.len() && json_line(#[trigger] ls[i]) == Some(l) {
        let i = choose|i: int| 0 <= i < ls.len() && json_line(#[trigger] ls[i]) == Some(l);
        assert(f(ls[i]) == Some(l));
    }
    if journal_of(s).contains(l) {
        let i = choose|i: int| 0 <= i < ls.len() && f(#[trigger] ls[i]) == Some(l);
        assert(json_line(ls[i]) == Some(l));
    }
}

} // verus!
