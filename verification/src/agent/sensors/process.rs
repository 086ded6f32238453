//! Process-snapshot heuristics: suspicious execution (reverse shells, /tmp
//! binaries) and unexpected executables. Heuristic: no kernel-level
//! guarantees.

use vstd::prelude::*;

use crate::text;

verus! {

/// One running process.
#[derive(Debug, Clone, PartialEq)]
pub struct ProcEntry {
    pub pid: u32,
    pub exe: String,
    pub cmdline: String,
    pub uid: u32,
}

/// The non-empty pieces of `b` between its zero bytes.
pub open spec fn nul_pieces(b: Seq<u8>) -> Seq<Seq<u8>>
    decreases b.len(),
{
    if b.len() == 0 {
        seq![]
    } else {
        let n = run_len(b);
        if n == 0 {
            nul_pieces(b.skip(1))
        } else {
            proof {
                lemma_run_len(b);
            }
            seq![b.take(n as int)] + nul_pieces(b.skip(n as int))
        }
    }
}

/// The number of bytes before the first zero byte.
pub open spec fn run_len(b: Seq<u8>) -> nat
    decreases b.len(),
{
    if b.len() == 0 || b[0] == 0 {
        0
    } else {
        1 + run_len(b.skip(1))
    }
}

/// A run is no longer than the bytes.
pub proof fn lemma_run_len(b: Seq<u8>)
    ensures
        run_len(b) <= b.len(),
    decreases b.len(),
{
    if b.len() > 0 && b[0] != 0 {
        lemma_run_len(b.skip(1));
    }
}

/// The bytes of each piece of a list.
pub open spec fn byte_views(v: Seq<Vec<u8>>) -> Seq<Seq<u8>> {
    v.map_values(|p: Vec<u8>| p@)
}

fn bytes_between(b: &Vec<u8>, from: usize, to: usize) -> (r: Vec<u8>)
    requires
        from <= to <= b@.len(),
    ensures
        r@ == b@.subrange(from as int, to as int),
{
    let mut r: Vec<u8> = Vec::new();
    let mut i: usize = from;
    while i < to
        invariant
            from <= i <= to <= b@.len(),
            r@ == b@.subrange(from as int, i as int),
        decreases to - i,
    {
        r.push(b[i]);
        assert(r@ == b@.subrange(from as int, i + 1));
        i = i + 1;
    }
    r
}

/// The arguments of /proc/<pid>/cmdline, which ends each with a zero byte.
pub fn cmdline_args(b: &Vec<u8>) -> (r: Vec<Vec<u8>>)
    ensures
        byte_views(r@) == nul_pieces(b@),
{
    let mut r: Vec<Vec<u8>> = Vec::new();
    let mut i: usize = 0;
    assert(b@.skip(0) == b@);
    assert(byte_views(r@) + nul_pieces(b@.skip(0)) == nul_pieces(b@));
    while i < b.len()
        invariant
            i <= b@.len(),
            byte_views(r@) + nul_pieces(b@.skip(i as int)) == nul_pieces(b@),
        decreases b@.len() - i,
    {
        let ghost rest = b@.skip(i as int);
        if b[i] == 0 {
            assert(rest[0] == b@[i as int]);
            assert(run_len(rest) == 0);
            assert(rest.skip(1) == b@.skip(i + 1));
            i = i + 1;
        } else {
            let start: usize = i;
            assert(rest.skip(0) == rest);
            while i < b.len() && b[i] != 0
                invariant
                    start <= i <= b@.len(),
                    rest == b@.skip(start as int),
                    run_len(rest) == (i - start) + run_len(rest.skip(i - start)),
                decreases b@.len() - i,
            {
                assert(rest.skip(i - start)[0] == b@[i as int]);
                assert(rest.skip(i - start).skip(1) == rest.skip(i - start + 1));
                i = i + 1;
            }
            let piece = bytes_between(b, start, i);
            proof {
                let tail = rest.skip(i - start);
                assert(i < b@.len() ==> tail[0] == b@[i as int]);
                assert(run_len(tail) == 0);
                assert(piece@ == rest.take(run_len(rest) as int));
                assert(rest.skip(run_len(rest) as int) == b@.skip(i as int));
                assert(rest[0] == b@[start as int]);
            }
            let ghost before = r@;
            r.push(piece);
            assert(byte_views(r@) == byte_views(before).push(piece@));
            assert(byte_views(before) + (seq![piece@] + nul_pieces(b@.skip(i as int)))
                == byte_views(r@) + nul_pieces(b@.skip(i as int)));
        }
    }
    assert(nul_pieces(b@.skip(b@.len() as int)) == Seq::<Seq<u8>>::empty());
    r
}

/// The user id of /proc/<pid>/status: the first number after the first "Uid:";
/// 0 where there is none.
pub open spec fn uid_of(ls: Seq<Seq<char>>) -> u32
    decreases ls.len(),
{
    if ls.len() == 0 {
        0
    } else {
        match text::after_prefix(ls[0], "Uid:"@) {
            Some(rest) => {
                let w = text::words(rest);
                match text::at_most(text::unsigned_value(w[0], 10), u32::MAX as int) {
                    Some(n) => if w.len() > 0 {
                        n as u32
                    } else {
                        0
                    },
                    None => 0,
                }
            },
            None => uid_of(ls.skip(1)),
        }
    }
}

fn uid_in(status: &str) -> (r: u32)
    ensures
        r == uid_of(text::lines(status@)),
{
    let ls = text::split_lines(status);
    let ghost all = text::lines(status@);
    let mut i: usize = 0;
    assert(all.skip(0) == all);
    while i < ls.len()
        invariant
            i <= ls@.len(),
            all == text::lines(status@),
            text::views(ls@) == all,
            uid_of(all.skip(i as int)) == uid_of(all),
        decreases ls@.len() - i,
    {
        assert(all.skip(i as int)[0] == ls@[i as int]@);
        match text::strip_prefix(ls[i].as_str(), "Uid:") {
            Some(rest) => {
                let ws = text::split_words(rest.as_str());
                if ws.len() == 0 {
                    assert(text::words(rest@).len() == 0);
                    return 0;
                }
                assert(text::words(rest@)[0] == ws@[0]@);
                return match text::parse_unsigned(ws[0].as_str(), 10, 0xffff_ffff) {
                    Some(n) => n as u32,
                    None => 0,
                };
            },
            None => {},
        }
        assert(all.skip(i as int).skip(1) == all.skip(i + 1));
        i = i + 1;
    }
    0
}

/// The process of a directory of /proc: its name, the target of its exe link,
/// the arguments and the status text, as far as they could be read. A name
/// that is no process id has none.
pub fn proc_entry(
    name: &str,
    exe: Option<String>,
    args: Option<Vec<String>>,
    status: Option<String>,
) -> (r: Option<ProcEntry>)
    ensures
        match text::at_most(text::unsigned_value(name@, 10), u32::MAX as int) {
            Some(pid) => {
                &&& r is Some
                &&& r->0.pid == pid
                &&& r->0.exe@ == (match exe {
                    Some(e) => e@,
                    None => seq![],
                })
                &&& r->0.cmdline@ == (match args {
                    Some(a) => text::join(text::views(a@), " "@),
                    None => seq![],
                })
                &&& r->0.uid == (match status {
                    Some(s) => uid_of(text::lines(s@)),
                    None => 0,
                })
            },
            None => r is None,
        },
{
    let pid: u64 = text::parse_unsigned(name, 10, 0xffff_ffff)?;
    let exe = match exe {
        Some(e) => e,
        None => String::new(),
    };
    let cmdline = match args {
        Some(a) => text::joined(&a, " "),
        None => String::new(),
    };
    let uid: u32 = match status {
        Some(s) => uid_in(s.as_str()),
        None => 0,
    };
    Some(ProcEntry { pid: pid as u32, exe, cmdline, uid })
}

/// Why a process looks suspicious.
pub open spec fn suspicion(exe: Seq<char>, cmdline: Seq<char>) -> Option<Seq<char>> {
    if text::starts(exe, "/tmp/"@) || text::starts(exe, "/dev/shm/"@) {
        Some("executable from "@ + exe)
    } else if text::holds(cmdline, "/bin/sh -i"@) || text::holds(cmdline, "bash -i"@) {
        Some("interactive shell"@)
    } else if text::holds(cmdline, "/dev/tcp/"@) {
        Some("reverse-shell pattern (/dev/tcp)"@)
    } else if text::holds(cmdline, "nc -e"@) || text::holds(cmdline, "ncat -e"@) {
        Some("netcat shell pattern"@)
    } else {
        None
    }
}

/// Suspicious-execution heuristics. Returns the reason, or None.
pub fn suspicious(entry: &ProcEntry) -> (r: Option<String>)
    ensures
        text::opt_view(r) == suspicion(entry.exe@, entry.cmdline@),
{
    let exe = entry.exe.as_str();
    if text::starts_with(exe, "/tmp/") || text::starts_with(exe, "/dev/shm/") {
        return Some(text::owned("executable from ").concat(exe));
    }
    let c = entry.cmdline.as_str();
    if text::contains_text(c, "/bin/sh -i") || text::contains_text(c, "bash -i") {
        return Some(text::owned("interactive shell"));
    }
    if text::contains_text(c, "/dev/tcp/") {
        return Some(text::owned("reverse-shell pattern (/dev/tcp)"));
    }
    if text::contains_text(c, "nc -e") || text::contains_text(c, "ncat -e") {
        return Some(text::owned("netcat shell pattern"));
    }
    None
}

/// The paths under which system binaries live.
pub open spec fn in_system_path(exe: Seq<char>) -> bool {
    ||| text::starts(exe, "/usr/bin"@)
    ||| text::starts(exe, "/usr/sbin"@)
    ||| text::starts(exe, "/bin"@)
    ||| text::starts(exe, "/sbin"@)
    ||| text::starts(exe, "/usr/lib"@)
    ||| text::starts(exe, "/lib"@)
    ||| text::starts(exe, "/opt/"@)
    ||| text::starts(exe, "/usr/local/bin"@)
    ||| text::starts(exe, "/usr/local/sbin"@)
}

/// True when an executable path looks like a standard system binary.
pub fn is_system_path(exe: &str) -> (r: bool)
    ensures
        r == in_system_path(exe@),
{
    text::starts_with(exe, "/usr/bin") || text::starts_with(exe, "/usr/sbin") || text::starts_with(
        exe,
        "/bin",
    ) || text::starts_with(exe, "/sbin") || text::starts_with(exe, "/usr/lib")
        || text::starts_with(exe, "/lib") || text::starts_with(exe, "/opt/") || text::starts_with(
        exe,
        "/usr/local/bin",
    ) || text::starts_with(exe, "/usr/local/sbin")
}

/// Arguments are what stands between zero bytes, without the empty ones.
pub proof fn law_arguments_one_by_one(a: Seq<u8>, rest: Seq<u8>)
    requires
        forall|i: int| 0 <= i < a.len() ==> #[trigger] a[i] != 0,
    ensures
        a.len() > 0 ==> nul_pieces(a + seq![0u8] + rest) == seq![a] + nul_pieces(rest),
        a.len() > 0 ==> nul_pieces(a) == seq![a],
        nul_pieces(seq![0u8] + rest) == nul_pieces(rest),
        nul_pieces(seq![]).len() == 0,
{
    let z = seq![0u8] + rest;
    assert(z[0] == 0 && z.skip(1) =~= rest);
    if a.len() > 0 {
        let b = a + seq![0u8] + rest;
        let n = a.len() as int;
        lemma_run_len_is(b, n);
        lemma_run_len_is(a, n);
        assert(b.take(n) =~= a);
        assert(b.skip(n) =~= z);
        assert(nul_pieces(z) == nul_pieces(rest));
        assert(nul_pieces(b) == seq![b.take(n)] + nul_pieces(b.skip(n)));
        assert(a.take(n) =~= a);
        assert(nul_pieces(a.skip(n)) =~= seq![]);
        assert(nul_pieces(a) =~= seq![a]);
    }
}

proof fn lemma_run_len_is(b: Seq<u8>, n: int)
    requires
        0 <= n <= b.len(),
        forall|i: int| 0 <= i < n ==> #[trigger] b[i] != 0,
        n < b.len() ==> b[n] == 0,
    ensures
        run_len(b) == n,
    decreases n,
{
    if n > 0 {
        assert(b[0] != 0);
        let t = b.skip(1);
        assert forall|i: int| 0 <= i < n - 1 implies #[trigger] t[i] != 0 by {
            assert(t[i] == b[i + 1]);
        }
        lemma_run_len_is(t, n - 1);
    }
}

/// The user of a process is the first number of the line that begins with
/// "Uid:".
pub proof fn law_uid_is_read(
    before: Seq<Seq<char>>,
    uid: u32,
    rest: Seq<char>,
    after: Seq<Seq<char>>,
)
    requires
        forall|i: int| 0 <= i < before.len() ==> !text::starts(#[trigger] before[i], "Uid:"@),
    ensures
        uid_of(before + seq!["Uid:"@ + seq!['\t'] + text::dec(uid as nat) + seq!['\t'] + rest] + after)
            == uid,
        uid_of(before) == 0,
    decreases before.len(),
{
    let line = "Uid:"@ + seq!['\t'] + text::dec(uid as nat) + seq!['\t'] + rest;
    let all = before + seq![line] + after;
    if before.len() > 0 {
        assert(all[0] == before[0]);
        assert(!text::starts(before[0], "Uid:"@));
        let t = before.skip(1);
        assert forall|i: int| 0 <= i < t.len() implies !text::starts(#[trigger] t[i], "Uid:"@) by {
            assert(t[i] == before[i + 1]);
        }
        law_uid_is_read(t, uid, rest, after);
        assert(all.skip(1) =~= t + seq![line] + after);
    } else {
        let d = text::dec(uid as nat);
        let tail = seq!['\t'] + d + seq!['\t'] + rest;
        assert(all[0] == line);
        assert(line =~= "Uid:"@ + tail);
        text::law_prefix_and_rest("Uid:"@, tail);
        text::law_numbers_read_back(uid as int);
        text::lemma_digits_are_digits(uid as nat, 10);
        text::law_digits_read_back(uid as nat, 10);
        assert(text::is_word(d)) by {
            assert forall|i: int| 0 <= i < d.len() implies !text::is_space(#[trigger] d[i]) by {
                assert(text::digit(text::digits(uid as nat, 10)[i], 10) is Some);
            }
        }
        assert(tail.skip(1) =~= d + seq!['\t'] + rest);
        assert(text::words(tail) == text::words(d + seq!['\t'] + rest));
        text::law_words_one_by_one(d, '\t', rest);
        assert((seq![d] + text::words(rest))[0] == d);
    }
}

/// A process is suspicious exactly when it runs from a directory that anyone
/// may write to, or its command line looks like an interactive or a network
/// shell; where it runs from comes first.
pub proof fn law_suspicious_processes(exe: Seq<char>, cmdline: Seq<char>)
    ensures
        suspicion(exe, cmdline) is Some <==> "/tmp/"@.is_prefix_of(exe)
            || "/dev/shm/"@.is_prefix_of(exe) || text::holds(cmdline, "/bin/sh -i"@) || text::holds(
            cmdline,
            "bash -i"@,
        ) || text::holds(cmdline, "/dev/tcp/"@) || text::holds(cmdline, "nc -e"@) || text::holds(
            cmdline,
            "ncat -e"@,
        ),
        "/tmp/"@.is_prefix_of(exe) || "/dev/shm/"@.is_prefix_of(exe) ==> suspicion(exe, cmdline)
            == Some("executable from "@ + exe),
{
    lemma_starts_is_prefix(exe, "/tmp/"@);
    lemma_starts_is_prefix(exe, "/dev/shm/"@);
}

proof fn lemma_starts_is_prefix(s: Seq<char>, pat: Seq<char>)
    ensures
        text::starts(s, pat) <==> pat.is_prefix_of(s),
{
    if text::starts(s, pat) {
        assert(s.subrange(0, pat.len() as int) == pat);
    }
    if pat.is_prefix_of(s) {
        assert(s.subrange(0, pat.len() as int) =~= pat);
    }
}

/// The directories of the system.
pub proof fn law_system_paths(exe: Seq<char>)
    ensures
        in_system_path(exe) <==> exists|p: Seq<char>|
            (p == "/usr/bin"@ || p == "/usr/sbin"@ || p == "/bin"@ || p == "/sbin"@ || p
                == "/usr/lib"@ || p == "/lib"@ || p == "/opt/"@ || p == "/usr/local/bin"@ || p
                == "/usr/local/sbin"@) && #[trigger] p.is_prefix_of(exe),
{
    lemma_starts_is_prefix(exe, "/usr/bin"@);
    lemma_starts_is_prefix(exe, "/usr/sbin"@);
    lemma_starts_is_prefix(exe, "/bin"@);
    lemma_starts_is_prefix(exe, "/sbin"@);
    lemma_starts_is_prefix(exe, "/usr/lib"@);
    lemma_starts_is_prefix(exe, "/lib"@);
    lemma_starts_is_prefix(exe, "/opt/"@);
    lemma_starts_is_prefix(exe, "/usr/local/bin"@);
    lemma_starts_is_prefix(exe, "/usr/local/sbin"@);
}

} // verus!
