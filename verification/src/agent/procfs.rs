//! What the kernel shows under /proc, as texts, and the readings in them.

use vstd::prelude::*;
use vstd::string::*;

use crate::seqs;
use crate::table;
use crate::table::Table;
use crate::text;

verus! {

/// The text of a file, or why it could not be read, as characters.
pub open spec fn outcome_view(r: Result<String, String>) -> Result<Seq<char>, Seq<char>> {
    match r {
        Ok(s) => Ok(s@),
        Err(e) => Err(e@),
    }
}

/// One file below /proc: its relative path, and its text or why it could not
/// be read.
pub struct ProcFile {
    pub path: String,
    pub text: Result<String, String>,
}

/// The texts of the files below /proc at one moment.
pub struct ProcFs {
    pub files: Vec<ProcFile>,
}

/// Integer readings of /proc/meminfo, in kB.
#[derive(Debug, Clone, Copy, PartialEq, Eq, Structural)]
pub struct MemInfo {
    pub mem_total: u64,
    pub mem_available: u64,
    pub swap_total: u64,
    pub swap_free: u64,
}

/// Error counters of one network interface.
#[derive(Debug, Clone, Copy, PartialEq, Eq, Structural)]
pub struct NetDevErrors {
    pub rx: u64,
    pub tx: u64,
}

impl View for NetDevErrors {
    type V = NetDevErrors;

    open spec fn view(&self) -> NetDevErrors {
        *self
    }
}

/// One socket of /proc/net/tcp or tcp6.
#[derive(Debug, Clone, PartialEq)]
pub struct TcpEntry {
    pub local_ip: String,
    pub local_port: u16,
    pub remote_ip: String,
    pub remote_port: u16,
    pub state: String,
}

/// What a `TcpEntry` says.
#[verifier::ext_equal]
pub struct TcpView {
    pub local_ip: Seq<char>,
    pub local_port: u16,
    pub remote_ip: Seq<char>,
    pub remote_port: u16,
    pub state: Seq<char>,
}

impl View for TcpEntry {
    type V = TcpView;

    open spec fn view(&self) -> TcpView {
        TcpView {
            local_ip: self.local_ip@,
            local_port: self.local_port,
            remote_ip: self.remote_ip@,
            remote_port: self.remote_port,
            state: self.state@,
        }
    }
}

/// What each socket of a list says.
pub open spec fn tcp_views(v: Seq<TcpEntry>) -> Seq<TcpView> {
    v.map_values(|e: TcpEntry| e@)
}

/// One mount entry from /proc/mounts (device, mount point, fstype).
#[derive(Debug, Clone, PartialEq)]
pub struct Mount {
    pub device: String,
    pub mount_point: String,
    pub fstype: String,
}

/// What a `Mount` says.
#[verifier::ext_equal]
pub struct MountView {
    pub device: Seq<char>,
    pub mount_point: Seq<char>,
    pub fstype: Seq<char>,
}

impl View for Mount {
    type V = MountView;

    open spec fn view(&self) -> MountView {
        MountView {
            device: self.device@,
            mount_point: self.mount_point@,
            fstype: self.fstype@,
        }
    }
}

/// What each mount of a list says.
pub open spec fn mount_views(v: Seq<Mount>) -> Seq<MountView> {
    v.map_values(|e: Mount| e@)
}

// ---------------------------------------------------------------------------
// Mounts
// ---------------------------------------------------------------------------

/// The filesystem types that hold no storage of their own.
pub open spec fn is_pseudo(fstype: Seq<char>) -> bool {
    ||| fstype == "proc"@
    ||| fstype == "sysfs"@
    ||| fstype == "devtmpfs"@
    ||| fstype == "devpts"@
    ||| fstype == "cgroup"@
    ||| fstype == "cgroup2"@
    ||| fstype == "pstore"@
    ||| fstype == "securityfs"@
    ||| fstype == "debugfs"@
    ||| fstype == "tracefs"@
    ||| fstype == "bpf"@
    ||| fstype == "autofs"@
    ||| fstype == "mqueue"@
    ||| fstype == "hugetlbfs"@
    ||| fstype == "configfs"@
    ||| fstype == "fusectl"@
    ||| fstype == "binfmt_misc"@
    ||| fstype == "rpc_pipefs"@
    ||| fstype == "nsfs"@
    ||| fstype == "overlay"@
}

fn pseudo(fstype: &str) -> (r: bool)
    ensures
        r == is_pseudo(fstype@),
{
    text::same(fstype, "proc") || text::same(fstype, "sysfs") || text::same(fstype, "devtmpfs")
        || text::same(fstype, "devpts") || text::same(fstype, "cgroup") || text::same(
        fstype,
        "cgroup2",
    ) || text::same(fstype, "pstore") || text::same(fstype, "securityfs") || text::same(
        fstype,
        "debugfs",
    ) || text::same(fstype, "tracefs") || text::same(fstype, "bpf") || text::same(fstype, "autofs")
        || text::same(fstype, "mqueue") || text::same(fstype, "hugetlbfs") || text::same(
        fstype,
        "configfs",
    ) || text::same(fstype, "fusectl") || text::same(fstype, "binfmt_misc") || text::same(
        fstype,
        "rpc_pipefs",
    ) || text::same(fstype, "nsfs") || text::same(fstype, "overlay")
}

/// The mount of a line of /proc/mounts; none for short lines and pseudo
/// filesystems. Blanks in a mount point are written as `\040` there.
pub open spec fn mount_of(line: Seq<char>) -> Option<MountView> {
    let p = text::words(line);
    if p.len() < 3 || is_pseudo(p[2]) {
        None
    } else {
        Some(
            MountView {
                device: p[0],
                mount_point: text::replace_all(p[1], "\\040"@, " "@),
                fstype: p[2],
            },
        )
    }
}

/// The mounts of /proc/mounts that hold storage.
pub open spec fn mounts_of(s: Seq<char>) -> Seq<MountView> {
    seqs::picked(text::lines(s), |l: Seq<char>| mount_of(l))
}

/// Parse /proc/mounts; keep only real (non-pseudo) filesystems.
pub fn parse_mounts(s: &str) -> (out: Vec<Mount>)
    ensures
        mount_views(out@) == mounts_of(s@),
{
    let ls = text::split_lines(s);
    let ghost all = text::lines(s@);
    let ghost f = |l: Seq<char>| mount_of(l);
    let mut out: Vec<Mount> = Vec::new();
    let mut i: usize = 0;
    assert(mount_views(out@) == seqs::picked(all.take(0), f));
    while i < ls.len()
        invariant
            i <= ls@.len(),
            text::views(ls@) == all,
            f == (|l: Seq<char>| mount_of(l)),
            mount_views(out@) == seqs::picked(all.take(i as int), f),
        decreases ls@.len() - i,
    {
        proof {
            seqs::lemma_take_step(all, i as int);
            assert(all[i as int] == ls@[i as int]@);
        }
        let parts = text::split_words(ls[i].as_str());
        let ghost p = text::words(all[i as int]);
        assert(text::views(parts@) == p);
        if parts.len() >= 3 {
            assert(p[0] == parts@[0]@ && p[1] == parts@[1]@ && p[2] == parts@[2]@);
            if !pseudo(parts[2].as_str()) {
                proof {
                    reveal_strlit("\\040");
                }
                let m = Mount {
                    device: parts[0].clone(),
                    mount_point: text::replaced(parts[1].as_str(), "\\040", " "),
                    fstype: parts[2].clone(),
                };
                assert(mount_of(all[i as int]) == Some(m@));
                let ghost before = out@;
                out.push(m);
                assert(mount_views(out@) == mount_views(before).push(m@));
            }
        }
        i = i + 1;
    }
    assert(all.take(ls@.len() as int) == all);
    out
}

// ---------------------------------------------------------------------------
// Addresses
// ---------------------------------------------------------------------------

/// The byte that the `i`-th pair of hexadecimal digits of `b` spells; 0 for a
/// pair that is missing or spells none.
pub open spec fn pair_byte(b: Seq<u8>, i: int) -> int {
    if 2 * i + 1 < b.len() {
        match text::at_most(
            text::unsigned_value(seq![b[2 * i] as char, b[2 * i + 1] as char], 16),
            255,
        ) {
            Some(v) => v,
            None => 0,
        }
    } else {
        0
    }
}

fn pair_of(b: &[u8], i: usize) -> (r: u8)
    requires
        i < 16,
    ensures
        r == pair_byte(b@, i as int),
{
    if 2 * i + 1 < b.len() {
        let mut s = String::new();
        s.push(b[2 * i] as char);
        s.push(b[2 * i + 1] as char);
        assert(s@ == seq![b@[2 * i as int] as char, b@[2 * i + 1] as char]);
        match text::parse_unsigned(s.as_str(), 16, 255) {
            Some(v) => v as u8,
            None => 0,
        }
    } else {
        0
    }
}

/// Four numbers with dots between them.
pub open spec fn dotted(a: int, b: int, c: int, d: int) -> Seq<char> {
    text::dec(a as nat) + "."@ + text::dec(b as nat) + "."@ + text::dec(c as nat) + "."@ + text::dec(
        d as nat,
    )
}

fn dotted_text(a: u8, b: u8, c: u8, d: u8) -> (r: String)
    ensures
        r@ == dotted(a as int, b as int, c as int, d as int),
{
    text::dec_u64(a as u64).concat(".").concat(text::dec_u64(b as u64).as_str()).concat(".").concat(
        text::dec_u64(c as u64).as_str(),
    ).concat(".").concat(text::dec_u64(d as u64).as_str())
}

/// The IPv4 address that /proc/net/tcp writes as `hex`.
pub open spec fn ipv4_text(hex: Seq<char>) -> Seq<char> {
    let b = vstd::utf8::encode_utf8(hex);
    dotted(pair_byte(b, 3), pair_byte(b, 2), pair_byte(b, 1), pair_byte(b, 0))
}

/// Decode the little-endian hex IPv4 from /proc/net/tcp.
/// "0100007F" is the bytes [01 00 00 7F], reversed 127.0.0.1. A pair of digits
/// that is missing or spells no byte counts as 0.
pub fn decode_ipv4(hex: &str) -> (r: String)
    ensures
        r@ == ipv4_text(hex@),
{
    let b = hex.as_bytes();
    dotted_text(pair_of(b, 3), pair_of(b, 2), pair_of(b, 1), pair_of(b, 0))
}

/// The `k`-th of the sixteen address bytes that /proc/net/tcp6 writes as `b`:
/// each group of four bytes is written in reverse.
pub open spec fn ipv6_byte(b: Seq<u8>, k: int) -> int {
    pair_byte(b, k / 4 * 4 + 3 - k % 4)
}

/// The eight 16-bit groups of the address.
pub open spec fn ipv6_groups(b: Seq<u8>) -> Seq<int> {
    Seq::new(8, |n: int| ipv6_byte(b, 2 * n) * 256 + ipv6_byte(b, 2 * n + 1))
}

/// The number of zero groups in a row from position `i` on.
pub open spec fn zero_run(g: Seq<int>, i: int) -> nat
    decreases g.len() - i,
{
    if i < 0 || i >= g.len() || g[i] != 0 {
        0
    } else {
        1 + zero_run(g, i + 1)
    }
}

/// Start and length of the longest row of zero groups that starts before
/// `n`; the first one among equals.
pub open spec fn longest_run(g: Seq<int>, n: nat) -> (int, nat)
    decreases n,
{
    if n == 0 {
        (0, 0)
    } else {
        let prev = longest_run(g, (n - 1) as nat);
        let here = zero_run(g, n - 1);
        if here > prev.1 {
            (n - 1, here)
        } else {
            prev
        }
    }
}

/// Groups in hexadecimal with colons between them.
pub open spec fn colons(g: Seq<int>) -> Seq<char>
    decreases g.len(),
{
    if g.len() == 0 {
        seq![]
    } else if g.len() == 1 {
        text::digits(g[0] as nat, 16)
    } else {
        colons(g.drop_last()) + ":"@ + text::digits(g.last() as nat, 16)
    }
}

/// The canonical text of an IPv6 address: an IPv4-mapped address ends in
/// dotted form; otherwise the longest row of at least two zero groups is
/// written as `::`.
pub open spec fn ipv6_text(hex: Seq<char>) -> Seq<char> {
    let b = vstd::utf8::encode_utf8(hex);
    let g = ipv6_groups(b);
    let run = longest_run(g, 8);
    if g[0] == 0 && g[1] == 0 && g[2] == 0 && g[3] == 0 && g[4] == 0 && g[5] == 0xffff {
        "::ffff:"@ + dotted(ipv6_byte(b, 12), ipv6_byte(b, 13), ipv6_byte(b, 14), ipv6_byte(b, 15))
    } else if run.1 > 1 {
        colons(g.take(run.0)) + "::"@ + colons(g.skip(run.0 + run.1))
    } else {
        colons(g)
    }
}

fn colons_text(g: &Vec<u64>, from: usize, to: usize) -> (r: String)
    requires
        from <= to <= g@.len(),
    ensures
        r@ == colons(g@.map_values(|x: u64| x as int).subrange(from as int, to as int)),
{
    let ghost all = g@.map_values(|x: u64| x as int).subrange(from as int, to as int);
    let mut s = String::new();
    let mut i: usize = from;
    while i < to
        invariant
            from <= i <= to <= g@.len(),
            all == g@.map_values(|x: u64| x as int).subrange(from as int, to as int),
            s@ == colons(all.take(i - from)),
        decreases to - i,
    {
        proof {
            seqs::lemma_take_step(all, i - from);
        }
        if i > from {
            s.append(":");
            s.append(text::hex_u64(g[i]).as_str());
        } else {
            s.append(text::hex_u64(g[i]).as_str());
            assert(s@ == text::digits(all[0] as nat, 16));
        }
        i = i + 1;
    }
    assert(all.take(to - from) == all);
    s
}

fn zero_run_of(g: &Vec<u64>, i: usize) -> (r: usize)
    requires
        i <= g@.len(),
    ensures
        r == zero_run(g@.map_values(|x: u64| x as int), i as int),
        i + r <= g@.len(),
    decreases g@.len() - i,
{
    if i == g.len() || g[i] != 0 {
        0
    } else {
        1 + zero_run_of(g, i + 1)
    }
}

/// Decode the four little-endian 32-bit words of the hex IPv6 from
/// /proc/net/tcp6, and write the address canonically. A pair of digits that is
/// missing or spells no byte counts as 0.
pub fn decode_ipv6(hex: &str) -> (r: String)
    ensures
        r@ == ipv6_text(hex@),
{
    let b = hex.as_bytes();
    let ghost groups = ipv6_groups(b@);
    let mut g: Vec<u64> = Vec::new();
    let mut n: usize = 0;
    while n < 8
        invariant
            n <= 8,
            g@.len() == n,
            groups == ipv6_groups(b@),
            forall|j: int| 0 <= j < n ==> g@[j] == #[trigger] groups[j],
        decreases 8 - n,
    {
        let k: usize = 2 * n;
        let hi: u64 = pair_of(b, k / 4 * 4 + 3 - k % 4) as u64;
        let k1: usize = 2 * n + 1;
        let lo: u64 = pair_of(b, k1 / 4 * 4 + 3 - k1 % 4) as u64;
        g.push(hi * 256 + lo);
        n = n + 1;
    }
    assert(g@.map_values(|x: u64| x as int) == groups);
    if g[0] == 0 && g[1] == 0 && g[2] == 0 && g[3] == 0 && g[4] == 0 && g[5] == 0xffff {
        return text::owned("::ffff:").concat(
            dotted_text(pair_of(b, 15), pair_of(b, 14), pair_of(b, 13), pair_of(b, 12)).as_str(),
        );
    }
    let mut start: usize = 0;
    let mut len: usize = 0;
    let mut i: usize = 0;
    while i < 8
        invariant
            i <= 8,
            g@.len() == 8,
            g@.map_values(|x: u64| x as int) == groups,
            (start as int, len as nat) == longest_run(groups, i as nat),
            start + len <= 8,
        decreases 8 - i,
    {
        let here = zero_run_of(&g, i);
        if here > len {
            start = i;
            len = here;
        }
        i = i + 1;
    }
    if len > 1 {
        assert(groups.subrange(0, start as int) == groups.take(start as int));
        assert(groups.subrange(start + len, 8) == groups.skip(start + len));
        colons_text(&g, 0, start).concat("::").concat(colons_text(&g, start + len, 8).as_str())
    } else {
        assert(groups.subrange(0, 8) == groups);
        colons_text(&g, 0, 8)
    }
}

// ---------------------------------------------------------------------------
// Socket tables
// ---------------------------------------------------------------------------

/// The texts before and after the last `c`.
pub open spec fn last_cut(s: Seq<char>, c: char) -> Option<(Seq<char>, Seq<char>)>
    decreases s.len(),
{
    if s.len() == 0 {
        None
    } else if s.last() == c {
        Some((s.drop_last(), seq![]))
    } else {
        match last_cut(s.drop_last(), c) {
            Some((a, b)) => Some((a, b.push(s.last()))),
            None => None,
        }
    }
}

/// The address of an entry such as `0100007F:1F90`.
pub open spec fn addr_part(s: Seq<char>) -> Seq<char> {
    match last_cut(s, ':') {
        Some((a, b)) => a,
        None => s,
    }
}

/// The port of an entry such as `0100007F:1F90`; 0 where there is none.
pub open spec fn port_part(s: Seq<char>) -> u16 {
    match last_cut(s, ':') {
        Some((a, b)) => match text::at_most(text::unsigned_value(b, 16), u16::MAX as int) {
            Some(n) => n as u16,
            None => 0,
        },
        None => 0,
    }
}

proof fn lemma_last_cut(s: Seq<char>, c: char, i: int)
    requires
        0 <= i < s.len(),
        s[i] == c,
        forall|j: int| i < j < s.len() ==> s[j] != c,
    ensures
        last_cut(s, c) == Some((s.take(i), s.skip(i + 1))),
    decreases s.len(),
{
    if i == s.len() - 1 {
        assert(s.drop_last() == s.take(i));
        assert(s.skip(i + 1) == Seq::<char>::empty());
    } else {
        lemma_last_cut(s.drop_last(), c, i);
        assert(s.drop_last().take(i) == s.take(i));
        assert(s.drop_last().skip(i + 1).push(s.last()) == s.skip(i + 1));
    }
}

proof fn lemma_no_last_cut(s: Seq<char>, c: char)
    requires
        forall|j: int| 0 <= j < s.len() ==> s[j] != c,
    ensures
        last_cut(s, c) is None,
    decreases s.len(),
{
    if s.len() > 0 {
        lemma_no_last_cut(s.drop_last(), c);
    }
}

fn split_addr_port(s: &str) -> (r: (String, u16))
    ensures
        r.0@ == addr_part(s@),
        r.1 == port_part(s@),
{
    let v = text::chars_of(s);
    let mut i: usize = v.len();
    while i > 0
        invariant
            v@ == s@,
            i <= v@.len(),
            forall|j: int| i <= j < v@.len() ==> v@[j] != ':',
        decreases i,
    {
        if v[i - 1] == ':' {
            proof {
                lemma_last_cut(s@, ':', i - 1);
            }
            let ip = text::text_of(&v, 0, i - 1);
            let port = text::text_of(&v, i, v.len());
            assert(ip@ == s@.take(i - 1));
            assert(port@ == s@.skip(i as int));
            let n: u16 = match text::parse_unsigned(port.as_str(), 16, 0xffff) {
                Some(n) => n as u16,
                None => 0,
            };
            return (ip, n);
        }
        i = i - 1;
    }
    proof {
        lemma_no_last_cut(s@, ':');
    }
    (text::owned(s), 0)
}

/// The text of an address of the IPv6 or the IPv4 table.
pub open spec fn ip_text(hex: Seq<char>, v6: bool) -> Seq<char> {
    if v6 {
        ipv6_text(hex)
    } else {
        ipv4_text(hex)
    }
}

fn decode_ip(hex: &str, v6: bool) -> (r: String)
    ensures
        r@ == ip_text(hex@, v6),
{
    if v6 {
        decode_ipv6(hex)
    } else {
        decode_ipv4(hex)
    }
}

/// The socket of a row of a TCP table; none for short rows and for states
/// other than listening and established.
pub open spec fn tcp_row(line: Seq<char>, v6: bool) -> Option<TcpView> {
    let f = text::words(line);
    if f.len() < 4 || (f[3] != "0A"@ && f[3] != "01"@) {
        None
    } else {
        Some(
            TcpView {
                local_ip: ip_text(addr_part(f[1]), v6),
                local_port: port_part(f[1]),
                remote_ip: ip_text(addr_part(f[2]), v6),
                remote_port: port_part(f[2]),
                state: if f[3] == "0A"@ {
                    "LISTEN"@
                } else {
                    "ESTABLISHED"@
                },
            },
        )
    }
}

/// The lines of a text without the first `n`.
pub open spec fn lines_after(s: Seq<char>, n: int) -> Seq<Seq<char>> {
    if text::lines(s).len() <= n {
        seq![]
    } else {
        text::lines(s).skip(n)
    }
}

/// The listening and established sockets of a TCP table, whose first line is
/// a heading.
pub open spec fn tcp_table(s: Seq<char>, v6: bool) -> Seq<TcpView> {
    seqs::picked(lines_after(s, 1), |l: Seq<char>| tcp_row(l, v6))
}

/// Parse a /proc/net/tcp or tcp6 file body into entries.
/// State hex: 0A = LISTEN, 01 = ESTABLISHED (the two we track).
pub fn parse_tcp_table(s: &str, v6: bool) -> (out: Vec<TcpEntry>)
    ensures
        tcp_views(out@) == tcp_table(s@, v6),
{
    let ls = text::split_lines(s);
    let ghost all = lines_after(s@, 1);
    let ghost f = |l: Seq<char>| tcp_row(l, v6);
    let mut out: Vec<TcpEntry> = Vec::new();
    let mut i: usize = 1;
    assert(tcp_views(out@) == seqs::picked(all.take(0), f));
    while i < ls.len()
        invariant
            1 <= i,
            i - 1 <= all.len(),
            text::views(ls@) == text::lines(s@),
            all == lines_after(s@, 1),
            f == (|l: Seq<char>| tcp_row(l, v6)),
            tcp_views(out@) == seqs::picked(all.take(i - 1), f),
        decreases ls@.len() - i,
    {
        proof {
            seqs::lemma_take_step(all, i - 1);
            assert(all[i - 1] == text::views(ls@)[i as int]);
            assert(all[i - 1] == ls@[i as int]@);
        }
        let fields = text::split_words(ls[i].as_str());
        let ghost w = text::words(all[i - 1]);
        assert(text::views(fields@) == w);
        if fields.len() >= 4 {
            assert(w[1] == fields@[1]@ && w[2] == fields@[2]@ && w[3] == fields@[3]@);
            let listen = text::same(fields[3].as_str(), "0A");
            if listen || text::same(fields[3].as_str(), "01") {
                let (local, local_port) = split_addr_port(fields[1].as_str());
                let (remote, remote_port) = split_addr_port(fields[2].as_str());
                let e = TcpEntry {
                    local_ip: decode_ip(local.as_str(), v6),
                    local_port,
                    remote_ip: decode_ip(remote.as_str(), v6),
                    remote_port,
                    state: text::owned(
                        if listen {
                            "LISTEN"
                        } else {
                            "ESTABLISHED"
                        },
                    ),
                };
                assert(tcp_row(all[i - 1], v6) == Some(e@));
                let ghost before = out@;
                out.push(e);
                assert(tcp_views(out@) == tcp_views(before).push(e@));
            }
        }
        i = i + 1;
    }
    assert(text::lines(s@).len() == ls@.len());
    assert(all.take(all.len() as int) == all);
    out
}

/// The address and port of a row of a UDP table; none for short rows.
pub open spec fn udp_row(line: Seq<char>, v6: bool) -> Option<(Seq<char>, u16)> {
    let f = text::words(line);
    if f.len() < 2 {
        None
    } else {
        Some((ip_text(addr_part(f[1]), v6), port_part(f[1])))
    }
}

/// The sockets of a UDP table, whose first line is a heading.
pub open spec fn udp_table(s: Seq<char>, v6: bool) -> Seq<(Seq<char>, u16)> {
    seqs::picked(lines_after(s, 1), |l: Seq<char>| udp_row(l, v6))
}

/// The addresses of a list as characters.
pub open spec fn udp_views(v: Seq<(String, u16)>) -> Seq<(Seq<char>, u16)> {
    v.map_values(|e: (String, u16)| (e.0@, e.1))
}

/// Parse a /proc/net/udp or udp6 file body. UDP has no listen/established
/// states: every row is kept as a (local ip, port) pair.
pub fn parse_udp_table(s: &str, v6: bool) -> (out: Vec<(String, u16)>)
    ensures
        udp_views(out@) == udp_table(s@, v6),
{
    let ls = text::split_lines(s);
    let ghost all = lines_after(s@, 1);
    let ghost f = |l: Seq<char>| udp_row(l, v6);
    let mut out: Vec<(String, u16)> = Vec::new();
    let mut i: usize = 1;
    assert(udp_views(out@) == seqs::picked(all.take(0), f));
    while i < ls.len()
        invariant
            1 <= i,
            i - 1 <= all.len(),
            text::views(ls@) == text::lines(s@),
            all == lines_after(s@, 1),
            f == (|l: Seq<char>| udp_row(l, v6)),
            udp_views(out@) == seqs::picked(all.take(i - 1), f),
        decreases ls@.len() - i,
    {
        proof {
            seqs::lemma_take_step(all, i - 1);
            assert(all[i - 1] == text::views(ls@)[i as int]);
            assert(all[i - 1] == ls@[i as int]@);
        }
        let fields = text::split_words(ls[i].as_str());
        let ghost w = text::words(all[i - 1]);
        assert(text::views(fields@) == w);
        if fields.len() >= 2 {
            assert(w[1] == fields@[1]@);
            let (local, port) = split_addr_port(fields[1].as_str());
            let ip = decode_ip(local.as_str(), v6);
            let ghost e = (ip@, port);
            let ghost before = out@;
            out.push((ip, port));
            assert(udp_views(out@) == udp_views(before).push(e));
        }
        i = i + 1;
    }
    assert(text::lines(s@).len() == ls@.len());
    assert(all.take(all.len() as int) == all);
    out
}

// ---------------------------------------------------------------------------
// Readings
// ---------------------------------------------------------------------------

/// A decimal number that a `u64` can hold.
pub open spec fn u64_value(s: Seq<char>) -> Option<int> {
    text::at_most(text::unsigned_value(s, 10), u64::MAX as int)
}

/// The numbers among the words `ws`.
pub open spec fn numbers(ws: Seq<Seq<char>>) -> Seq<int> {
    seqs::picked(ws, |w: Seq<char>| u64_value(w))
}

/// The sum of a list of numbers.
pub open spec fn sum(s: Seq<int>) -> int
    decreases s.len(),
{
    if s.len() == 0 {
        0
    } else {
        sum(s.drop_last()) + s.last()
    }
}

/// The integers of a list of machine numbers.
pub open spec fn ints(v: Seq<u64>) -> Seq<int> {
    v.map_values(|x: u64| x as int)
}

/// The numbers among the words from position `from` on.
fn numbers_of(ws: &Vec<String>, from: usize) -> (out: Vec<u64>)
    requires
        from <= ws@.len(),
    ensures
        ints(out@) == numbers(text::views(ws@).skip(from as int)),
{
    let ghost all = text::views(ws@).skip(from as int);
    let ghost f = |w: Seq<char>| u64_value(w);
    let mut out: Vec<u64> = Vec::new();
    let mut i: usize = from;
    assert(ints(out@) == seqs::picked(all.take(0), f));
    while i < ws.len()
        invariant
            from <= i <= ws@.len(),
            all == text::views(ws@).skip(from as int),
            f == (|w: Seq<char>| u64_value(w)),
            ints(out@) == seqs::picked(all.take(i - from), f),
        decreases ws@.len() - i,
    {
        proof {
            seqs::lemma_take_step(all, i - from);
            assert(all[i - from] == ws@[i as int]@);
        }
        let ghost before = out@;
        match text::parse_u64(ws[i].as_str()) {
            Some(n) => {
                out.push(n);
                assert(ints(out@) == ints(before).push(n as int));
            },
            None => {},
        }
        i = i + 1;
    }
    assert(all.take(all.len() as int) == all);
    out
}

/// The file of a list with a relative path.
pub open spec fn file_in(files: Seq<ProcFile>, rel: Seq<char>) -> Result<Seq<char>, Seq<char>>
    decreases files.len(),
{
    if files.len() == 0 {
        Err("file not read"@)
    } else if files[0].path@ == rel {
        outcome_view(files[0].text)
    } else {
        file_in(files.skip(1), rel)
    }
}

/// The cpu line of /proc/stat: the sum of its counters and the idle counter.
pub open spec fn cpu_line(s: Seq<char>) -> Result<(int, int), Seq<char>> {
    let ls = text::lines(s);
    let ws = text::words(ls[0]);
    let nums = if ws.len() == 0 {
        seq![]
    } else {
        numbers(ws.skip(1))
    };
    if ls.len() == 0 {
        Err("empty stat"@)
    } else if sum(nums) > u64::MAX {
        Err("cpu counters too large"@)
    } else {
        Ok(
            (
                sum(nums),
                if nums.len() > 3 {
                    nums[3]
                } else {
                    0
                },
            ),
        )
    }
}

/// The number of the last line of /proc/meminfo under a name.
pub open spec fn mem_value(ls: Seq<Seq<char>>, name: Seq<char>) -> int
    decreases ls.len(),
{
    if ls.len() == 0 {
        0
    } else {
        let w = text::words(ls.last());
        if w.len() >= 2 && text::trim_end_char(w[0], ':') == name && u64_value(w[1]) is Some {
            u64_value(w[1])->0
        } else {
            mem_value(ls.drop_last(), name)
        }
    }
}

/// The name and counters of a row of /proc/net/dev; none for rows without
/// exactly one colon and for rows with fewer than sixteen counters.
pub open spec fn netdev_row(line: Seq<char>) -> Option<(Seq<char>, NetDevErrors)> {
    let p = text::pieces(line, ':');
    let vals = numbers(text::words(p[1]));
    if p.len() != 2 || vals.len() < 16 {
        None
    } else {
        Some((text::trim(p[0]), NetDevErrors { rx: vals[2] as u64, tx: vals[10] as u64 }))
    }
}

/// The error counters of the interfaces of /proc/net/dev, whose first two
/// lines are headings. A later row of an interface replaces an earlier one.
pub open spec fn netdev_table(ls: Seq<Seq<char>>) -> Seq<(Seq<char>, NetDevErrors)>
    decreases ls.len(),
{
    if ls.len() == 0 {
        seq![]
    } else {
        match netdev_row(ls.last()) {
            Some((name, e)) => table::put(netdev_table(ls.drop_last()), name, e),
            None => netdev_table(ls.drop_last()),
        }
    }
}

/// The first word of a text.
pub open spec fn first_word(s: Seq<char>) -> Option<Seq<char>> {
    let w = text::words(s);
    if w.len() == 0 {
        None
    } else {
        Some(w[0])
    }
}

impl ProcFs {
    /// The readings of these files.
    pub fn new(files: Vec<ProcFile>) -> (r: Self)
        ensures
            r.files == files,
    {
        ProcFs { files }
    }

    /// The file with a relative path.
    pub open spec fn file(&self, rel: Seq<char>) -> Result<Seq<char>, Seq<char>> {
        file_in(self.files@, rel)
    }

    fn read(&self, rel: &str) -> (r: Result<String, String>)
        ensures
            outcome_view(r) == self.file(rel@),
    {
        let mut i: usize = 0;
        assert(self.files@.skip(0) == self.files@);
        while i < self.files.len()
            invariant
                i <= self.files@.len(),
                file_in(self.files@.skip(i as int), rel@) == file_in(self.files@, rel@),
            decreases self.files@.len() - i,
        {
            assert(self.files@.skip(i as int)[0] == self.files@[i as int]);
            if text::same(self.files[i].path.as_str(), rel) {
                return match &self.files[i].text {
                    Ok(t) => Ok(t.clone()),
                    Err(e) => Err(e.clone()),
                };
            }
            assert(self.files@.skip(i as int).skip(1) == self.files@.skip(i + 1));
            i = i + 1;
        }
        Err(text::owned("file not read"))
    }

    /// Total and idle cpu ticks since boot. An error when /proc/stat could not
    /// be read, is empty, or holds counters that add up to more than a `u64`.
    pub fn cpu_ticks(&self) -> (r: Result<(u64, u64), String>)
        ensures
            match (r, self.file("stat"@)) {
                (Ok(v), Ok(t)) => cpu_line(t) == Ok::<(int, int), Seq<char>>(
                    (v.0 as int, v.1 as int),
                ),
                (Err(e), Ok(t)) => cpu_line(t) == Err::<(int, int), Seq<char>>(e@),
                (Err(e), Err(why)) => e@ == why,
                (Ok(v), Err(why)) => false,
            },
    {
        let t = self.read("stat")?;
        let ls = text::split_lines(t.as_str());
        if ls.len() == 0 {
            assert(text::lines(t@).len() == 0);
            return Err(text::owned("empty stat"));
        }
        assert(text::lines(t@)[0] == ls@[0]@);
        let ws = text::split_words(ls[0].as_str());
        let ghost w = text::words(ls@[0]@);
        let nums: Vec<u64> = if ws.len() == 0 {
            assert(w.len() == 0);
            Vec::new()
        } else {
            numbers_of(&ws, 1)
        };
        let ghost ns = if w.len() == 0 {
            seq![]
        } else {
            numbers(w.skip(1))
        };
        assert(ints(nums@) == ns);
        let mut total: u128 = 0;
        let mut i: usize = 0;
        let n: usize = nums.len();
        while i < n
            invariant
                i <= n,
                n == nums@.len(),
                total == sum(ints(nums@).take(i as int)),
                total <= i * 0xffff_ffff_ffff_ffff,
            decreases n - i,
        {
            proof {
                seqs::lemma_take_step(ints(nums@), i as int);
                assert((i + 1) * 0xffff_ffff_ffff_ffff <= 0xffff_ffff_ffff_ffff
                    * 0xffff_ffff_ffff_ffff) by (nonlinear_arith)
                    requires
                        i + 1 <= 0xffff_ffff_ffff_ffff,
                ;
            }
            total = total + nums[i] as u128;
            i = i + 1;
        }
        assert(ints(nums@).take(n as int) == ints(nums@));
        if total > 0xffff_ffff_ffff_ffff {
            return Err(text::owned("cpu counters too large"));
        }
        let idle: u64 = if nums.len() > 3 {
            nums[3]
        } else {
            0
        };
        Ok((total as u64, idle))
    }

    /// The sizes of memory and swap, in kB. Missing ones are 0.
    pub fn meminfo(&self) -> (r: Result<MemInfo, String>)
        ensures
            match (r, self.file("meminfo"@)) {
                (Ok(m), Ok(t)) => {
                    let ls = text::lines(t);
                    &&& m.mem_total == mem_value(ls, "MemTotal"@)
                    &&& m.mem_available == mem_value(ls, "MemAvailable"@)
                    &&& m.swap_total == mem_value(ls, "SwapTotal"@)
                    &&& m.swap_free == mem_value(ls, "SwapFree"@)
                },
                (Err(e), Err(why)) => e@ == why,
                _ => false,
            },
    {
        let t = self.read("meminfo")?;
        let ls = text::split_lines(t.as_str());
        let ghost all = text::lines(t@);
        let mut m = MemInfo { mem_total: 0, mem_available: 0, swap_total: 0, swap_free: 0 };
        let mut i: usize = 0;
        while i < ls.len()
            invariant
                i <= ls@.len(),
                text::views(ls@) == all,
                m.mem_total == mem_value(all.take(i as int), "MemTotal"@),
                m.mem_available == mem_value(all.take(i as int), "MemAvailable"@),
                m.swap_total == mem_value(all.take(i as int), "SwapTotal"@),
                m.swap_free == mem_value(all.take(i as int), "SwapFree"@),
            decreases ls@.len() - i,
        {
            proof {
                seqs::lemma_take_step(all, i as int);
                assert(all[i as int] == ls@[i as int]@);
                reveal_strlit("MemTotal");
                reveal_strlit("MemAvailable");
                reveal_strlit("SwapTotal");
                reveal_strlit("SwapFree");
                assert("MemTotal"@.len() == 8 && "MemAvailable"@.len() == 12 && "SwapTotal"@.len()
                    == 9 && "SwapFree"@.len() == 8);
                assert("MemTotal"@[0] == 'M' && "SwapFree"@[0] == 'S');
            }
            let ws = text::split_words(ls[i].as_str());
            let ghost w = text::words(all[i as int]);
            assert(text::views(ws@) == w);
            if ws.len() >= 2 {
                assert(w[0] == ws@[0]@ && w[1] == ws@[1]@);
                let name = text::trimmed_end_of(ws[0].as_str(), ':');
                match text::parse_u64(ws[1].as_str()) {
                    Some(n) => {
                        if text::same(name.as_str(), "MemTotal") {
                            m.mem_total = n;
                        } else if text::same(name.as_str(), "MemAvailable") {
                            m.mem_available = n;
                        } else if text::same(name.as_str(), "SwapTotal") {
                            m.swap_total = n;
                        } else if text::same(name.as_str(), "SwapFree") {
                            m.swap_free = n;
                        }
                    },
                    None => {},
                }
            }
            i = i + 1;
        }
        assert(all.take(ls@.len() as int) == all);
        Ok(m)
    }

    /// The one-minute load average, as /proc/loadavg writes it.
    pub fn load_one_min(&self) -> (r: Result<String, String>)
        ensures
            outcome_view(r) == (match self.file("loadavg"@) {
                Ok(t) => match first_word(t) {
                    Some(w) => Ok::<Seq<char>, Seq<char>>(w),
                    None => Err("empty loadavg"@),
                },
                Err(e) => Err(e),
            }),
    {
        let t = self.read("loadavg")?;
        let ws = text::split_words(t.as_str());
        if ws.len() == 0 {
            assert(text::words(t@).len() == 0);
            return Err(text::owned("empty loadavg"));
        }
        assert(text::words(t@)[0] == ws@[0]@);
        Ok(ws[0].clone())
    }

    /// The seconds since boot, as /proc/uptime writes them.
    pub fn uptime_secs(&self) -> (r: Result<String, String>)
        ensures
            outcome_view(r) == (match self.file("uptime"@) {
                Ok(t) => match first_word(t) {
                    Some(w) => Ok::<Seq<char>, Seq<char>>(w),
                    None => Err("empty uptime"@),
                },
                Err(e) => Err(e),
            }),
    {
        let t = self.read("uptime")?;
        let ws = text::split_words(t.as_str());
        if ws.len() == 0 {
            assert(text::words(t@).len() == 0);
            return Err(text::owned("empty uptime"));
        }
        assert(text::words(t@)[0] == ws@[0]@);
        Ok(ws[0].clone())
    }

    /// /proc/sys/kernel/random/boot_id, which changes on every boot.
    pub fn boot_id(&self) -> (r: Result<String, String>)
        ensures
            outcome_view(r) == (match self.file("sys/kernel/random/boot_id"@) {
                Ok(t) => Ok::<Seq<char>, Seq<char>>(text::trim(t)),
                Err(e) => Err(e),
            }),
    {
        let t = self.read("sys/kernel/random/boot_id")?;
        Ok(text::trimmed(t.as_str()))
    }

    /// Linux ephemeral port range start from /proc/sys/net/ipv4/ip_local_port_range
    /// (32768 on stock kernels). Sockets bound at or above this are
    /// source/backend sockets, not listeners worth flagging. Falls back to
    /// 32768.
    pub fn udp_ephemeral_min(&self) -> (r: u16)
        ensures
            r == (match self.file("sys/net/ipv4/ip_local_port_range"@) {
                Ok(t) => match first_word(t) {
                    Some(w) => match text::at_most(text::unsigned_value(w, 10), u16::MAX as int) {
                        Some(n) => n,
                        None => 32768,
                    },
                    None => 32768,
                },
                Err(e) => 32768,
            }),
    {
        match self.read("sys/net/ipv4/ip_local_port_range") {
            Ok(t) => {
                let ws = text::split_words(t.as_str());
                if ws.len() == 0 {
                    assert(text::words(t@).len() == 0);
                    return 32768;
                }
                assert(text::words(t@)[0] == ws@[0]@);
                match text::parse_unsigned(ws[0].as_str(), 10, 0xffff) {
                    Some(n) => n as u16,
                    None => 32768,
                }
            },
            Err(_) => 32768,
        }
    }

    /// The receive and transmit error counters by interface.
    pub fn netdev_errors(&self) -> (r: Result<Table<String, NetDevErrors>, String>)
        ensures
            match (r, self.file("net/dev"@)) {
                (Ok(m), Ok(t)) => m@ == netdev_table(lines_after(t, 2)),
                (Err(e), Err(why)) => e@ == why,
                _ => false,
            },
    {
        let t = self.read("net/dev")?;
        let ls = text::split_lines(t.as_str());
        let ghost all = lines_after(t@, 2);
        let mut out: Table<String, NetDevErrors> = Table::new();
        let mut i: usize = 2;
        assert(out@ == netdev_table(all.take(0)));
        while i < ls.len()
            invariant
                2 <= i,
                i - 2 <= all.len(),
                text::views(ls@) == text::lines(t@),
                all == lines_after(t@, 2),
                out@ == netdev_table(all.take(i - 2)),
            decreases ls@.len() - i,
        {
            proof {
                seqs::lemma_take_step(all, i - 2);
                assert(all[i - 2] == text::views(ls@)[i as int]);
                assert(all[i - 2] == ls@[i as int]@);
            }
            let parts = text::split_char(ls[i].as_str(), ':');
            let ghost p = text::pieces(all[i - 2], ':');
            assert(text::views(parts@) == p);
            if parts.len() == 2 {
                assert(p[0] == parts@[0]@ && p[1] == parts@[1]@);
                let ws = text::split_words(parts[1].as_str());
                let vals = numbers_of(&ws, 0);
                assert(text::views(ws@).skip(0) == text::words(p[1]));
                let ghost ns = numbers(text::words(p[1]));
                assert(ints(vals@) == ns);
                if vals.len() >= 16 {
                    assert(ns[2] == vals@[2] && ns[10] == vals@[10]);
                    let name = text::trimmed(parts[0].as_str());
                    out.set(name, NetDevErrors { rx: vals[2], tx: vals[10] });
                }
            }
            i = i + 1;
        }
        assert(text::lines(t@).len() == ls@.len());
        assert(all.take(all.len() as int) == all);
        Ok(out)
    }

    /// The tracked IPv4 TCP sockets.
    pub fn tcp_entries(&self) -> (r: Result<Vec<TcpEntry>, String>)
        ensures
            match (r, self.file("net/tcp"@)) {
                (Ok(v), Ok(t)) => tcp_views(v@) == tcp_table(t, false),
                (Err(e), Err(why)) => e@ == why,
                _ => false,
            },
    {
        let t = self.read("net/tcp")?;
        Ok(parse_tcp_table(t.as_str(), false))
    }

    /// The tracked IPv6 TCP sockets.
    pub fn tcp6_entries(&self) -> (r: Result<Vec<TcpEntry>, String>)
        ensures
            match (r, self.file("net/tcp6"@)) {
                (Ok(v), Ok(t)) => tcp_views(v@) == tcp_table(t, true),
                (Err(e), Err(why)) => e@ == why,
                _ => false,
            },
    {
        let t = self.read("net/tcp6")?;
        Ok(parse_tcp_table(t.as_str(), true))
    }

    /// The IPv4 UDP sockets.
    pub fn udp_entries(&self) -> (r: Result<Vec<(String, u16)>, String>)
        ensures
            match (r, self.file("net/udp"@)) {
                (Ok(v), Ok(t)) => udp_views(v@) == udp_table(t, false),
                (Err(e), Err(why)) => e@ == why,
                _ => false,
            },
    {
        let t = self.read("net/udp")?;
        Ok(parse_udp_table(t.as_str(), false))
    }

    /// The IPv6 UDP sockets.
    pub fn udp6_entries(&self) -> (r: Result<Vec<(String, u16)>, String>)
        ensures
            match (r, self.file("net/udp6"@)) {
                (Ok(v), Ok(t)) => udp_views(v@) == udp_table(t, true),
                (Err(e), Err(why)) => e@ == why,
                _ => false,
            },
    {
        let t = self.read("net/udp6")?;
        Ok(parse_udp_table(t.as_str(), true))
    }

    /// The mounts that hold storage.
    pub fn mounts(&self) -> (r: Result<Vec<Mount>, String>)
        ensures
            match (r, self.file("mounts"@)) {
                (Ok(v), Ok(t)) => mount_views(v@) == mounts_of(t),
                (Err(e), Err(why)) => e@ == why,
                _ => false,
            },
    {
        let t = self.read("mounts")?;
        Ok(parse_mounts(t.as_str()))
    }

    /// True when the core /proc sensors all failed: used by `check` to avoid
    /// claiming "no issues" on a host that cannot be read. Whether the load
    /// average is a number is for the caller to say.
    pub fn is_broken(&self, load_is_number: bool) -> (r: bool)
        ensures
            r == (self.file("meminfo"@) is Err && !load_is_number && self.file("net/dev"@) is Err),
    {
        self.meminfo().is_err() && !load_is_number && self.netdev_errors().is_err()
    }
}

/// An address and a port are parted at the last colon.
pub proof fn law_ports_follow_the_last_colon(addr: Seq<char>, port: Seq<char>, n: int)
    requires
        !port.contains(':'),
        text::unsigned_value(port, 16) == Some(n),
        0 <= n <= 65535,
    ensures
        addr_part(addr + seq![':'] + port) == addr,
        port_part(addr + seq![':'] + port) == n,
{
    lemma_cut_at_the_last(addr, port, ':');
}

proof fn lemma_cut_at_the_last(a: Seq<char>, b: Seq<char>, c: char)
    requires
        !b.contains(c),
    ensures
        last_cut(a + seq![c] + b, c) == Some((a, b)),
    decreases b.len(),
{
    let s = a + seq![c] + b;
    if b.len() > 0 {
        let init = b.drop_last();
        assert(b.contains(b.last())) by {
            assert(b[b.len() - 1] == b.last());
        }
        assert(!init.contains(c)) by {
            if init.contains(c) {
                let i = choose|i: int| 0 <= i < init.len() && init[i] == c;
                assert(b[i] == c);
            }
        }
        lemma_cut_at_the_last(a, init, c);
        assert(s.drop_last() =~= a + seq![c] + init);
        assert(s.last() == b.last());
        assert(init.push(b.last()) =~= b);
    } else {
        assert(s.last() == c);
        assert(s.drop_last() =~= a);
        assert(b =~= seq![]);
    }
}

/// A row shows a listening socket or an established connection by its state,
/// 0A and 01, and rows in other states are passed over.
pub proof fn law_rows_of_sockets(line: Seq<char>, v6: bool)
    ensures
        ({
            let f = text::words(line);
            let r = tcp_row(line, v6);
            &&& f.len() >= 4 && f[3] == "0A"@ ==> (r matches Some(e) && e.state == "LISTEN"@)
            &&& f.len() >= 4 && f[3] == "01"@ ==> (r matches Some(e) && e.state == "ESTABLISHED"@)
            &&& f.len() < 4 || (f[3] != "0A"@ && f[3] != "01"@) ==> r is None
            &&& r matches Some(e) ==> e.local_ip == ip_text(addr_part(f[1]), v6) && e.local_port
                == port_part(f[1]) && e.remote_ip == ip_text(addr_part(f[2]), v6) && e.remote_port
                == port_part(f[2])
        }),
        ({
            let f = text::words(line);
            let r = udp_row(line, v6);
            &&& r is Some <==> f.len() >= 2
            &&& r matches Some(e) ==> e.0 == ip_text(addr_part(f[1]), v6) && e.1 == port_part(f[1])
        }),
{
    reveal_strlit("0A");
    reveal_strlit("01");
    assert("0A"@[1] == 'A' && "01"@[1] == '1');
}

/// Every row behind the heading is read, and nothing else is shown.
pub proof fn law_tables_are_read_whole(s: Seq<char>, v6: bool, e: TcpView)
    ensures
        tcp_table(s, v6).contains(e) <==> exists|i: int|
            1 <= i < text::lines(s).len() && tcp_row(#[trigger] text::lines(s)[i], v6) == Some(e),
{
    let ls = text::lines(s);
    let f = |l: Seq<char>| tcp_row(l, v6);
    let rows = lines_after(s, 1);
    seqs::lemma_picked(rows, f, e);
    if tcp_table(s, v6).contains(e) {
        let i = choose|i: int| 0 <= i < rows.len() && f(#[trigger] rows[i]) == Some(e);
        assert(ls[i + 1] == rows[i]);
    }
    if exists|i: int| 1 <= i < ls.len() && tcp_row(#[trigger] ls[i], v6) == Some(e) {
        let i = choose|i: int| 1 <= i < ls.len() && tcp_row(#[trigger] ls[i], v6) == Some(e);
        assert(rows[i - 1] == ls[i]);
        assert(f(rows[i - 1]) == Some(e));
    }
}

/// The digits of an IPv4 address stand in the order of memory: the last pair
/// is the first number.
pub proof fn law_ipv4_is_read_backwards(hex: Seq<char>, h: Seq<int>)
    requires
        hex.len() == 8,
        h.len() == 8,
        forall|i: int| 0 <= i < 8 ==> text::digit(#[trigger] hex[i], 16) == Some(h[i]),
    ensures
        ipv4_text(hex) == text::dec((h[6] * 16 + h[7]) as nat) + "."@ + text::dec(
            (h[4] * 16 + h[5]) as nat,
        ) + "."@ + text::dec((h[2] * 16 + h[3]) as nat) + "."@ + text::dec(
            (h[0] * 16 + h[1]) as nat,
        ),
{
    let b = vstd::utf8::encode_utf8(hex);
    assert forall|i: int| 0 <= i < hex.len() implies '\0' <= #[trigger] hex[i] <= '\u{7f}' by {
        assert(text::digit(hex[i], 16) == Some(h[i]));
    }
    assert(vstd::utf8::is_ascii_chars(hex));
    vstd::utf8::is_ascii_chars_encode_utf8(hex);
    assert forall|k: int| 0 <= k < 4 implies #[trigger] pair_byte(b, k) == h[2 * k] * 16 + h[2 * k
        + 1] by {
        lemma_pair(hex, h, 2 * k);
        assert(b[2 * k] == hex[2 * k] as u8 && b[2 * k + 1] == hex[2 * k + 1] as u8);
        assert(b[2 * k] as char == hex[2 * k] && b[2 * k + 1] as char == hex[2 * k + 1]);
    }
    assert(pair_byte(b, 3) == h[6] * 16 + h[7]);
    assert(pair_byte(b, 2) == h[4] * 16 + h[5]);
    assert(pair_byte(b, 1) == h[2] * 16 + h[3]);
    assert(pair_byte(b, 0) == h[0] * 16 + h[1]);
}

proof fn lemma_pair(hex: Seq<char>, h: Seq<int>, i: int)
    requires
        0 <= i,
        i + 1 < hex.len(),
        h.len() == hex.len(),
        forall|i: int| 0 <= i < hex.len() ==> text::digit(#[trigger] hex[i], 16) == Some(h[i]),
    ensures
        text::unsigned_value(seq![hex[i], hex[i + 1]], 16) == Some(h[i] * 16 + h[i + 1]),
        0 <= h[i] * 16 + h[i + 1] <= 255,
{
    let s = seq![hex[i], hex[i + 1]];
    assert(text::digit(hex[i], 16) == Some(h[i]));
    assert(text::digit(hex[i + 1], 16) == Some(h[i + 1]));
    assert(s.drop_last() =~= seq![hex[i]]);
    assert(s.drop_last().drop_last() =~= seq![]);
    reveal_with_fuel(text::digits_value, 4);
    assert(0 <= h[i] < 16 && 0 <= h[i + 1] < 16);
}

/// The run that an IPv6 address leaves out is the longest run of zeros, the
/// first of equally long ones.
pub proof fn law_longest_run_is_left_out(g: Seq<int>, i: int)
    requires
        0 <= i < g.len(),
    ensures
        ({
            let r = longest_run(g, g.len());
            &&& zero_run(g, i) <= r.1
            &&& r.1 > 0 ==> 0 <= r.0 && r.0 + r.1 <= g.len() && zero_run(g, r.0) == r.1
            &&& i < r.0 ==> zero_run(g, i) < r.1
            &&& forall|k: int| r.0 <= k < r.0 + r.1 ==> #[trigger] g[k] == 0
        }),
{
    lemma_longest_run(g, g.len(), i);
    let r = longest_run(g, g.len());
    if r.1 > 0 {
        lemma_zero_run(g, r.0);
    }
}

proof fn lemma_zero_run(g: Seq<int>, i: int)
    requires
        0 <= i <= g.len(),
    ensures
        i + zero_run(g, i) <= g.len(),
        forall|k: int| i <= k < i + zero_run(g, i) ==> #[trigger] g[k] == 0,
        i + zero_run(g, i) < g.len() ==> g[i + zero_run(g, i)] != 0,
    decreases g.len() - i,
{
    if i < g.len() && g[i] == 0 {
        lemma_zero_run(g, i + 1);
    }
}

proof fn lemma_longest_run(g: Seq<int>, n: nat, i: int)
    requires
        n <= g.len(),
    ensures
        ({
            let r = longest_run(g, n);
            &&& 0 <= i < n ==> zero_run(g, i) <= r.1
            &&& r.1 > 0 ==> 0 <= r.0 < n && zero_run(g, r.0) == r.1
            &&& 0 <= i < r.0 ==> zero_run(g, i) < r.1
        }),
    decreases n,
{
    if n > 0 {
        lemma_longest_run(g, (n - 1) as nat, i);
    }
}

/// The cpu counters of a line add up, and the fourth is the idle time.
pub proof fn law_cpu_counters_add_up(s: Seq<char>, name: Seq<char>, n: Seq<u64>)
    requires
        text::lines(s).len() > 0,
        n.len() >= 4,
        text::words(text::lines(s)[0]) == seq![name] + n.map_values(|x: u64| text::dec(x as nat)),
        n.fold_left(0int, |a: int, x: u64| a + x) <= u64::MAX,
    ensures
        cpu_line(s) == Ok::<(int, int), Seq<char>>(
            (n.fold_left(0int, |a: int, x: u64| a + x), n[3] as int),
        ),
{
    let ws = text::words(text::lines(s)[0]);
    let decs = n.map_values(|x: u64| text::dec(x as nat));
    assert(ws.skip(1) =~= decs);
    lemma_numbers(n);
}

/// Numbers are read from the words they are written as.
proof fn lemma_numbers(n: Seq<u64>)
    ensures
        numbers(n.map_values(|x: u64| text::dec(x as nat))) == n.map_values(|x: u64| x as int),
        sum(n.map_values(|x: u64| x as int)) == n.fold_left(0int, |a: int, x: u64| a + x),
    decreases n.len(),
{
    let decs = n.map_values(|x: u64| text::dec(x as nat));
    let vals = n.map_values(|x: u64| x as int);
    if n.len() > 0 {
        let init = n.drop_last();
        lemma_numbers(init);
        text::law_numbers_read_back(n.last() as int);
        assert(decs.drop_last() =~= init.map_values(|x: u64| text::dec(x as nat)));
        assert(vals.drop_last() =~= init.map_values(|x: u64| x as int));
        assert(decs.last() == text::dec(n.last() as nat));
        assert(u64_value(decs.last()) == Some(n.last() as int));
        assert(numbers(decs) =~= vals);
    } else {
        assert(numbers(decs) =~= vals);
    }
}

/// A size of memory is the number behind its name, of the last line that names
/// it.
pub proof fn law_memory_sizes_are_read(
    before: Seq<Seq<char>>,
    line: Seq<char>,
    after: Seq<Seq<char>>,
    name: Seq<char>,
    n: u64,
)
    requires
        name.len() > 0 && name.last() != ':',
        text::words(line).len() >= 2,
        text::words(line)[0] == name + seq![':'],
        text::words(line)[1] == text::dec(n as nat),
        forall|i: int|
            0 <= i < after.len() ==> text::words(#[trigger] after[i]).len() == 0
                || text::trim_end_char(text::words(after[i])[0], ':') != name,
    ensures
        mem_value(before.push(line) + after, name) == n,
    decreases after.len(),
{
    let ls = before.push(line) + after;
    if after.len() > 0 {
        let init = after.drop_last();
        assert forall|i: int| 0 <= i < init.len() implies text::words(#[trigger] init[i]).len()
            == 0 || text::trim_end_char(text::words(init[i])[0], ':') != name by {
            assert(init[i] == after[i]);
        }
        law_memory_sizes_are_read(before, line, init, name, n);
        assert(ls.drop_last() =~= before.push(line) + init);
        assert(ls.last() == after[after.len() - 1]);
    } else {
        assert(ls =~= before.push(line));
        let w = text::words(line);
        assert((name + seq![':']).drop_last() =~= name);
        assert(text::trim_end_char(name + seq![':'], ':') == text::trim_end_char(name, ':'));
        text::law_numbers_read_back(n as int);
    }
}

/// The errors of an interface are the third of its receive counters and the
/// third of its transmit counters.
pub proof fn law_interface_errors_are_read(name: Seq<char>, rest: Seq<char>, n: Seq<u64>)
    requires
        !name.contains(':'),
        !rest.contains(':'),
        text::words(rest) == n.map_values(|x: u64| text::dec(x as nat)),
        n.len() == 16,
    ensures
        netdev_row(name + seq![':'] + rest) == Some(
            (text::trim(name), NetDevErrors { rx: n[2], tx: n[10] }),
        ),
{
    text::law_pieces_one_by_one(name, ':', rest);
    text::law_pieces_one_by_one(rest, ':', seq![]);
    let p = text::pieces(name + seq![':'] + rest, ':');
    assert(p =~= seq![name, rest]);
    lemma_numbers(n);
}

/// A mount is shown unless the kernel made its file system up; blanks in its
/// path are unescaped.
pub proof fn law_mounts_are_read(line: Seq<char>, a: Seq<char>, b: Seq<char>)
    requires
        text::words(line).len() >= 3,
        text::words(line)[1] == a + "\\040"@ + b || text::words(line)[1] == a,
        !a.contains('\\'),
        !b.contains('\\'),
    ensures
        ({
            let w = text::words(line);
            let made_up = seq![
                "proc"@, "sysfs"@, "devtmpfs"@, "devpts"@, "cgroup"@, "cgroup2"@, "pstore"@,
                "securityfs"@, "debugfs"@, "tracefs"@, "bpf"@, "autofs"@, "mqueue"@, "hugetlbfs"@,
                "configfs"@, "fusectl"@, "binfmt_misc"@, "rpc_pipefs"@, "nsfs"@, "overlay"@,
            ];
            &&& made_up.contains(w[2]) ==> mount_of(line) is None
            &&& !made_up.contains(w[2]) ==> (mount_of(line) matches Some(m) && m.device == w[0]
                && m.fstype == w[2] && (w[1] == a + "\\040"@ + b ==> m.mount_point == a + " "@ + b)
                && (w[1] == a ==> m.mount_point == a))
        }),
{
    reveal_strlit("\\040");
    let w = text::words(line);
    let made_up = seq![
        "proc"@, "sysfs"@, "devtmpfs"@, "devpts"@, "cgroup"@, "cgroup2"@, "pstore"@,
        "securityfs"@, "debugfs"@, "tracefs"@, "bpf"@, "autofs"@, "mqueue"@, "hugetlbfs"@,
        "configfs"@, "fusectl"@, "binfmt_misc"@, "rpc_pipefs"@, "nsfs"@, "overlay"@,
    ];
    assert(made_up.contains(w[2]) <==> is_pseudo(w[2])) by {
        assert(made_up[0] == "proc"@ && made_up[1] == "sysfs"@ && made_up[2] == "devtmpfs"@
            && made_up[3] == "devpts"@ && made_up[4] == "cgroup"@ && made_up[5] == "cgroup2"@
            && made_up[6] == "pstore"@ && made_up[7] == "securityfs"@ && made_up[8] == "debugfs"@
            && made_up[9] == "tracefs"@);
        assert(made_up[10] == "bpf"@ && made_up[11] == "autofs"@ && made_up[12] == "mqueue"@
            && made_up[13] == "hugetlbfs"@ && made_up[14] == "configfs"@ && made_up[15]
            == "fusectl"@ && made_up[16] == "binfmt_misc"@ && made_up[17] == "rpc_pipefs"@
            && made_up[18] == "nsfs"@ && made_up[19] == "overlay"@);
        if made_up.contains(w[2]) {
            let i = choose|i: int| 0 <= i < made_up.len() && made_up[i] == w[2];
            assert(0 <= i < 20);
        }
    }
    text::law_replace_at_the_first(a, "\\040"@, b, " "@);
    text::law_nothing_to_replace(a, "\\040"@, " "@);
    text::law_nothing_to_replace(b, "\\040"@, " "@);
}

/// The digits of an IPv6 address stand in four words, each in the order of
/// memory: its last two pairs are its first group.
pub proof fn law_ipv6_words_are_read_backwards(hex: Seq<char>, h: Seq<int>, w: int)
    requires
        hex.len() == 32,
        h.len() == 32,
        forall|i: int| 0 <= i < 32 ==> text::digit(#[trigger] hex[i], 16) == Some(h[i]),
        0 <= w < 4,
    ensures
        ({
            let g = ipv6_groups(vstd::utf8::encode_utf8(hex));
            let pair = |k: int| h[2 * k] * 16 + h[2 * k + 1];
            &&& g.len() == 8
            &&& g[2 * w] == pair(4 * w + 3) * 256 + pair(4 * w + 2)
            &&& g[2 * w + 1] == pair(4 * w + 1) * 256 + pair(4 * w)
        }),
{
    let b = vstd::utf8::encode_utf8(hex);
    assert forall|i: int| 0 <= i < hex.len() implies '\0' <= #[trigger] hex[i] <= '\u{7f}' by {
        assert(text::digit(hex[i], 16) == Some(h[i]));
    }
    assert(vstd::utf8::is_ascii_chars(hex));
    vstd::utf8::is_ascii_chars_encode_utf8(hex);
    assert forall|k: int| 0 <= k < 16 implies #[trigger] pair_byte(b, k) == h[2 * k] * 16 + h[2 * k
        + 1] by {
        lemma_pair(hex, h, 2 * k);
        assert(b[2 * k] == hex[2 * k] as u8 && b[2 * k + 1] == hex[2 * k + 1] as u8);
        assert(b[2 * k] as char == hex[2 * k] && b[2 * k + 1] as char == hex[2 * k + 1]);
    }
    let k = 4 * w;
    assert(ipv6_byte(b, k) == pair_byte(b, k + 3));
    assert(ipv6_byte(b, k + 1) == pair_byte(b, k + 2));
    assert(ipv6_byte(b, k + 2) == pair_byte(b, k + 1));
    assert(ipv6_byte(b, k + 3) == pair_byte(b, k));
    assert(2 * (2 * w) == k && 2 * (2 * w + 1) == k + 2);
}

/// The groups of an IPv6 address are written in base sixteen with colons
/// between; the longest run of at least two zeros is left out.
pub proof fn law_ipv6_is_written_short(hex: Seq<char>)
    ensures
        ({
            let g = ipv6_groups(vstd::utf8::encode_utf8(hex));
            let run = longest_run(g, 8);
            let written = |s: Seq<int>|
                text::join(Seq::new(s.len(), |i: int| text::digits(s[i] as nat, 16)), ":"@);
            let mapped = g[0] == 0 && g[1] == 0 && g[2] == 0 && g[3] == 0 && g[4] == 0 && g[5]
                == 0xffff;
            &&& !mapped && run.1 < 2 ==> ipv6_text(hex) == written(g)
            &&& !mapped && run.1 >= 2 ==> ipv6_text(hex) == written(g.take(run.0)) + "::"@
                + written(g.skip(run.0 + run.1))
        }),
{
    let g = ipv6_groups(vstd::utf8::encode_utf8(hex));
    let run = longest_run(g, 8);
    lemma_colons_join(g);
    lemma_colons_join(g.take(run.0));
    lemma_colons_join(g.skip(run.0 + run.1));
}

proof fn lemma_colons_join(s: Seq<int>)
    ensures
        colons(s) == text::join(Seq::new(s.len(), |i: int| text::digits(s[i] as nat, 16)), ":"@),
    decreases s.len(),
{
    let all = Seq::new(s.len(), |i: int| text::digits(s[i] as nat, 16));
    if s.len() > 1 {
        let init = s.drop_last();
        lemma_colons_join(init);
        assert(all.drop_last() =~= Seq::new(
            init.len(),
            |i: int| text::digits(init[i] as nat, 16),
        ));
    }
}

/// Every mount that can be read is shown.
pub proof fn law_mount_tables_are_read_whole(s: Seq<char>, m: MountView)
    ensures
        mounts_of(s).contains(m) <==> exists|i: int|
            0 <= i < text::lines(s).len() && mount_of(#[trigger] text::lines(s)[i]) == Some(m),
{
    let f = |l: Seq<char>| mount_of(l);
    let ls = text::lines(s);
    seqs::lemma_picked(ls, f, m);
    if exists|i: int| 0 <= i < ls.len() && mount_of(#[trigger] ls[i]) == Some(m) {
        let i = choose|i: int| 0 <= i < ls.len() && mount_of(#[trigger] ls[i]) == Some(m);
        assert(f(ls[i]) == Some(m));
    }
    if mounts_of(s).contains(m) {
        let i = choose|i: int| 0 <= i < ls.len() && f(#[trigger] ls[i]) == Some(m);
        assert(mount_of(ls[i]) == Some(m));
    }
}

} // verus!
