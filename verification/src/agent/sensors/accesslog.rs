//! nginx/apache combined-format access log parsing.

use vstd::prelude::*;

use crate::text;

verus! {

/// One combined-format access log line.
#[derive(Debug, Clone, PartialEq)]
pub struct AccessLine {
    pub ip: String,
    pub status: u16,
    pub request: String,
}

/// What an `AccessLine` says.
#[verifier::ext_equal]
pub struct AccessView {
    pub ip: Seq<char>,
    pub status: u16,
    pub request: Seq<char>,
}

impl View for AccessLine {
    type V = AccessView;

    open spec fn view(&self) -> AccessView {
        AccessView { ip: self.ip@, status: self.status, request: self.request@ }
    }
}

/// A part that opens a quoted text, and is more than the quote.
pub open spec fn opens(part: Seq<char>) -> bool {
    part.len() > 1 && part[0] == '"'
}

/// A part that closes a quoted text.
pub open spec fn closes(part: Seq<char>) -> bool {
    part.len() > 0 && part.last() == '"'
}

/// The first position from `i` on whose part opens a quoted text.
pub open spec fn first_opening(parts: Seq<Seq<char>>, i: int) -> Option<int>
    decreases parts.len() - i,
{
    if i < 0 || i >= parts.len() {
        None
    } else if opens(parts[i]) {
        Some(i)
    } else {
        first_opening(parts, i + 1)
    }
}

/// The first position from `i` on whose part closes a quoted text.
pub open spec fn first_closing(parts: Seq<Seq<char>>, i: int) -> Option<int>
    decreases parts.len() - i,
{
    if i < 0 || i >= parts.len() {
        None
    } else if closes(parts[i]) {
        Some(i)
    } else {
        first_closing(parts, i + 1)
    }
}

/// The request line of a combined-format line
/// `ip - user [date] "METHOD path proto" status bytes "referrer" "ua"`:
/// the first quoted text, and the number that follows it. There is none when
/// the line begins with a quote, has no quoted text, or no status after it.
pub open spec fn access_of(line: Seq<char>) -> Option<AccessView> {
    let parts = text::pieces(line, ' ');
    if parts[0].len() > 0 && parts[0][0] == '"' {
        None
    } else {
        match first_opening(parts, 0) {
            Some(from) => match first_closing(parts, from) {
                Some(to) => match text::at_most(
                    text::unsigned_value(parts[to + 1], 10),
                    u16::MAX as int,
                ) {
                    Some(status) => if to + 1 < parts.len() {
                        Some(
                            AccessView {
                                ip: parts[0],
                                status: status as u16,
                                request: text::trim_char(
                                    text::join(parts.subrange(from, to + 1), " "@),
                                    '"',
                                ),
                            },
                        )
                    } else {
                        None
                    },
                    None => None,
                },
                None => None,
            },
            None => None,
        }
    }
}

fn opens_quote(part: &str) -> (r: bool)
    ensures
        r == opens(part@),
{
    let v = text::chars_of(part);
    v.len() > 1 && v[0] == '"'
}

fn closes_quote(part: &str) -> (r: bool)
    ensures
        r == closes(part@),
{
    let v = text::chars_of(part);
    v.len() > 0 && v[v.len() - 1] == '"'
}

/// Parse a combined-format line:
/// `ip - user [date] "METHOD path proto" status bytes "referrer" "ua"`
pub fn parse_combined(line: &str) -> (r: Option<AccessLine>)
    ensures
        match r {
            Some(a) => access_of(line@) == Some(a@),
            None => access_of(line@) is None,
        },
{
    let parts = text::split_char(line, ' ');
    let ghost p = text::pieces(line@, ' ');
    assert(text::views(parts@) == p);
    assert(p[0] == parts@[0]@);
    let lead = text::chars_of(parts[0].as_str());
    if lead.len() > 0 && lead[0] == '"' {
        return None;
    }
    let n: usize = parts.len();
    let mut from: usize = 0;
    while from < n && !opens_quote(parts[from].as_str())
        invariant
            from <= n,
            n == parts@.len(),
            text::views(parts@) == p,
            first_opening(p, from as int) == first_opening(p, 0),
        decreases n - from,
    {
        assert(p[from as int] == parts@[from as int]@);
        from = from + 1;
    }
    if from == n {
        return None;
    }
    assert(p[from as int] == parts@[from as int]@);
    let mut to: usize = from;
    while to < n && !closes_quote(parts[to].as_str())
        invariant
            from <= to <= n,
            n == parts@.len(),
            text::views(parts@) == p,
            first_closing(p, to as int) == first_closing(p, from as int),
        decreases n - to,
    {
        assert(p[to as int] == parts@[to as int]@);
        to = to + 1;
    }
    if to == n {
        return None;
    }
    assert(p[to as int] == parts@[to as int]@);
    if to + 1 >= n {
        return None;
    }
    assert(p[to + 1] == parts@[to + 1]@);
    let status: u64 = text::parse_unsigned(parts[to + 1].as_str(), 10, 0xffff)?;
    let request = text::trimmed_of(
        text::joined_range(&parts, from, to + 1, " ").as_str(),
        '"',
    );
    Some(AccessLine { ip: parts[0].clone(), status: status as u16, request })
}

proof fn lemma_first_opening(parts: Seq<Seq<char>>, i: int, n: int)
    requires
        0 <= i <= n < parts.len(),
        forall|k: int| i <= k < n ==> !opens(#[trigger] parts[k]),
        opens(parts[n]),
    ensures
        first_opening(parts, i) == Some(n),
    decreases n - i,
{
    if i < n {
        assert(!opens(parts[i]));
        lemma_first_opening(parts, i + 1, n);
    }
}

proof fn lemma_first_closing(parts: Seq<Seq<char>>, i: int, n: int)
    requires
        0 <= i <= n < parts.len(),
        forall|k: int| i <= k < n ==> !closes(#[trigger] parts[k]),
        closes(parts[n]),
    ensures
        first_closing(parts, i) == Some(n),
    decreases n - i,
{
    if i < n {
        assert(!closes(parts[i]));
        lemma_first_closing(parts, i + 1, n);
    }
}

proof fn lemma_pieces_hold(s: Seq<char>, c: char, x: char)
    requires
        !s.contains(x),
    ensures
        forall|k: int|
            0 <= k < text::pieces(s, c).len() ==> !(#[trigger] text::pieces(s, c)[k]).contains(x),
    decreases s.len(),
{
    if s.contains(c) {
        let (head, rest) = text::lemma_at_first_separator(s, c);
        text::law_pieces_one_by_one(head, c, rest);
        assert(!rest.contains(x)) by {
            if rest.contains(x) {
                let j = choose|j: int| 0 <= j < rest.len() && rest[j] == x;
                assert(s[head.len() + 1 + j] == x);
            }
        }
        assert(!head.contains(x)) by {
            if head.contains(x) {
                let j = choose|j: int| 0 <= j < head.len() && head[j] == x;
                assert(s[j] == x);
            }
        }
        lemma_pieces_hold(rest, c, x);
        let ps = text::pieces(s, c);
        assert forall|k: int| 0 <= k < ps.len() implies !(#[trigger] ps[k]).contains(x) by {
            if k > 0 {
                assert(ps[k] == text::pieces(rest, c)[k - 1]);
            }
        }
    } else {
        text::law_pieces_one_by_one(s, c, seq![]);
    }
}

/// The pieces of a request between quotes: the first opens it, the last closes
/// it, and none between does.
proof fn lemma_quoted_pieces(r: Seq<char>)
    requires
        r.len() > 0,
        r[0] != ' ',
        !r.contains('"'),
    ensures
        ({
            let q = text::pieces(seq!['"'] + r + seq!['"'], ' ');
            &&& q.len() > 0
            &&& opens(q[0])
            &&& forall|k: int| 0 <= k < q.len() - 1 ==> !closes(#[trigger] q[k])
            &&& closes(q.last())
        }),
{
    let rs = text::pieces(r, ' ');
    let f = text::pieces(seq!['"'] + r, ' ');
    let q = text::pieces(seq!['"'] + r + seq!['"'], ' ');
    text::lemma_pieces_front('"', r, ' ');
    text::lemma_pieces_back(seq!['"'] + r, '"', ' ');
    lemma_pieces_hold(r, ' ', '"');
    assert(rs[0].len() > 0) by {
        if r.contains(' ') {
            let (head, rest) = text::lemma_at_first_separator(r, ' ');
            text::law_pieces_one_by_one(head, ' ', rest);
            assert(rs[0] == head);
            if head.len() == 0 {
                assert(r[0] == ' ');
            }
        } else {
            text::law_pieces_one_by_one(r, ' ', seq![]);
        }
    }
    assert(f[0] == seq!['"'] + rs[0]);
    assert(q.last() == f.last() + seq!['"']);
    if q.len() > 1 {
        assert(q[0] == f[0]);
    } else {
        assert(q[0] == f[0] + seq!['"']);
    }
    assert(q[0][0] == '"');
    assert forall|k: int| 0 <= k < q.len() - 1 implies !closes(#[trigger] q[k]) by {
        assert(q[k] == f[k]);
        let t = rs[k];
        assert(!t.contains('"'));
        if k == 0 {
            assert(f[0].last() == rs[0].last());
            assert(rs[0][rs[0].len() - 1] == rs[0].last());
        } else {
            assert(f[k] == rs[k]);
            if t.len() > 0 {
                assert(t[t.len() - 1] == t.last());
            }
        }
    }
}

/// A line of the combined format is read: the address before the first blank,
/// the request between the quotes, and the status behind them.
pub proof fn law_requests_are_read(
    ip: Seq<char>,
    mid: Seq<char>,
    request: Seq<char>,
    status: u16,
    tail: Seq<char>,
)
    requires
        !ip.contains(' '),
        !ip.contains('"'),
        !mid.contains('"'),
        request.len() > 0,
        request[0] != ' ',
        !request.contains('"'),
    ensures
        access_of(
            ip + seq![' '] + mid + seq![' '] + (seq!['"'] + request + seq!['"']) + seq![' ']
                + text::dec(status as nat) + seq![' '] + tail,
        ) == Some((AccessView { ip, status, request })),
{
    let quoted = seq!['"'] + request + seq!['"'];
    let d = text::dec(status as nat);
    let line = ip + seq![' '] + mid + seq![' '] + quoted + seq![' '] + d + seq![' '] + tail;
    let parts = text::pieces(line, ' ');
    let (m, q, t) = (
        text::pieces(mid, ' '),
        text::pieces(quoted, ' '),
        text::pieces(tail, ' '),
    );
    text::lemma_digits_are_digits(status as nat, 10);
    text::law_numbers_read_back(status as int);
    text::law_digits_read_back(status as nat, 10);
    assert(!d.contains(' ')) by {
        if d.contains(' ') {
            let i = choose|i: int| 0 <= i < d.len() && d[i] == ' ';
            assert(text::digit(text::digits(status as nat, 10)[i], 10) is Some);
        }
    }
    let after = d + seq![' '] + tail;
    text::law_pieces_one_by_one(d, ' ', tail);
    text::law_pieces_of_both(quoted, ' ', after);
    text::law_pieces_of_both(mid, ' ', quoted + seq![' '] + after);
    text::law_pieces_one_by_one(ip, ' ', mid + seq![' '] + (quoted + seq![' '] + after));
    assert(line =~= ip + seq![' '] + (mid + seq![' '] + (quoted + seq![' '] + after)));
    assert(parts =~= seq![ip] + m + q + seq![d] + t);
    lemma_quoted_pieces(request);
    lemma_pieces_hold(mid, ' ', '"');
    let from = 1 + m.len() as int;
    let to = from + q.len() as int - 1;
    assert forall|k: int| 0 <= k < from implies !opens(#[trigger] parts[k]) by {
        if k == 0 {
            assert(parts[0] == ip);
            if ip.len() > 0 {
                assert(ip.contains(ip[0]));
            }
        } else {
            assert(parts[k] == m[k - 1]);
            if m[k - 1].len() > 0 {
                assert(m[k - 1].contains(m[k - 1][0]));
            }
        }
    }
    assert(parts[from] == q[0]);
    lemma_first_opening(parts, 0, from);
    assert forall|k: int| from <= k < to implies !closes(#[trigger] parts[k]) by {
        assert(parts[k] == q[k - from]);
    }
    assert(parts[to] == q.last());
    lemma_first_closing(parts, from, to);
    assert(parts[to + 1] == d);
    assert(parts.subrange(from, to + 1) =~= q);
    text::law_pieces_make_the_text(quoted, ' ');
    reveal_strlit(" ");
    assert(" "@ =~= seq![' ']);
    assert(request.contains(request[0]));
    assert(request[request.len() - 1] == request.last());
    text::law_quotes_are_taken_off(request);
    if ip.len() > 0 {
        assert(ip.contains(ip[0]));
    }
}

} // verus!
