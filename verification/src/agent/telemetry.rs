//! Shipping events: the spool's file format and the requests.

use vstd::prelude::*;

use crate::common::Config;
use crate::seqs;
use crate::text;

verus! {

/// JSONL spool: one event per line, appended on failure, replayed on start.
/// Replay reads and deletes files oldest-first (sorted by filename).
pub struct Spool {
    pub dir: String,
}

/// Each line, ended by a newline.
pub open spec fn framed(ls: Seq<Seq<char>>) -> Seq<char>
    decreases ls.len(),
{
    if ls.len() == 0 {
        seq![]
    } else {
        ls[0] + seq!['\n'] + framed(ls.skip(1))
    }
}

/// `a` comes no later than `b` in the order of their characters.
pub open spec fn text_le(a: Seq<char>, b: Seq<char>) -> bool
    decreases a.len(),
{
    if a.len() == 0 {
        true
    } else if b.len() == 0 {
        false
    } else if a[0] != b[0] {
        a[0] < b[0]
    } else {
        text_le(a.skip(1), b.skip(1))
    }
}

/// An ordered list of names with one more in its place.
pub open spec fn name_in(s: Seq<Seq<char>>, x: Seq<char>) -> Seq<Seq<char>>
    decreases s.len(),
{
    if s.len() > 0 && !text_le(s.last(), x) {
        name_in(s.drop_last(), x).push(s.last())
    } else {
        s.push(x)
    }
}

/// The names of a list in ascending order.
pub open spec fn by_name(s: Seq<Seq<char>>) -> Seq<Seq<char>>
    decreases s.len(),
{
    if s.len() == 0 {
        seq![]
    } else {
        name_in(by_name(s.drop_last()), s.last())
    }
}

fn le(a: &str, b: &str) -> (r: bool)
    ensures
        r == text_le(a@, b@),
{
    let v = text::chars_of(a);
    let w = text::chars_of(b);
    let mut i: usize = 0;
    assert(v@.skip(0) =~= v@ && w@.skip(0) =~= w@);
    while i < v.len() && i < w.len() && v[i] == w[i]
        invariant
            v@ == a@,
            w@ == b@,
            i <= v@.len(),
            i <= w@.len(),
            text_le(v@.skip(i as int), w@.skip(i as int)) == text_le(a@, b@),
        decreases v@.len() - i,
    {
        assert(v@.skip(i as int)[0] == v@[i as int] && w@.skip(i as int)[0] == w@[i as int]);
        assert(v@.skip(i as int).skip(1) =~= v@.skip(i + 1));
        assert(w@.skip(i as int).skip(1) =~= w@.skip(i + 1));
        i = i + 1;
    }
    if i == v.len() {
        true
    } else if i == w.len() {
        false
    } else {
        assert(v@.skip(i as int)[0] == v@[i as int] && w@.skip(i as int)[0] == w@[i as int]);
        v[i] < w[i]
    }
}

fn insert_name(v: &mut Vec<String>, x: String)
    ensures
        text::views(final(v)@) == name_in(text::views(old(v)@), x@),
{
    let ghost s = text::views(v@);
    let ghost t = x@;
    let mut i: usize = v.len();
    assert(s.take(s.len() as int) =~= s);
    assert(name_in(s.take(i as int), t) + s.skip(i as int) =~= name_in(s, t));
    while i > 0 && !le(v[i - 1].as_str(), x.as_str())
        invariant
            s == text::views(v@),
            t == x@,
            i <= s.len(),
            name_in(s.take(i as int), t) + s.skip(i as int) == name_in(s, t),
        decreases i,
    {
        proof {
            let h = s.take(i as int);
            assert(h.last() == s[i - 1]);
            assert(h.drop_last() =~= s.take(i - 1));
            assert(name_in(h.drop_last(), t).push(s[i - 1]) + s.skip(i as int) =~= name_in(
                h.drop_last(),
                t,
            ) + s.skip(i - 1));
        }
        i = i - 1;
    }
    proof {
        let h = s.take(i as int);
        if i > 0 {
            assert(h.last() == s[i - 1]);
        }
        assert(h.push(t) + s.skip(i as int) =~= s.insert(i as int, t));
    }
    let ghost before = v@;
    v.insert(i, x);
    assert(text::views(v@) =~= s.insert(i as int, t));
}

impl Spool {
    /// A spool in a directory.
    pub fn new(dir: String) -> (r: Self)
        ensures
            r.dir@ == dir@,
    {
        Spool { dir }
    }

    /// The file that a process appends to.
    pub fn file_name(&self, pid: u32) -> (r: String)
        ensures
            r@ == "spool-"@ + text::dec(pid as nat) + ".jsonl"@,
    {
        text::owned("spool-").concat(text::dec_u64(pid as u64).as_str()).concat(".jsonl")
    }

    /// The text that appending these lines writes.
    pub fn frame(lines: &Vec<String>) -> (r: String)
        ensures
            r@ == framed(text::views(lines@)),
    {
        let ghost all = text::views(lines@);
        let mut s = String::new();
        let mut i: usize = 0;
        assert(all.skip(0) =~= all);
        assert(s@ + framed(all.skip(0)) =~= framed(all));
        while i < lines.len()
            invariant
                i <= lines@.len(),
                all == text::views(lines@),
                s@ + framed(all.skip(i as int)) == framed(all),
            decreases lines@.len() - i,
        {
            let ghost before = s@;
            s.append(lines[i].as_str());
            s.push('\n');
            proof {
                let rest = all.skip(i as int);
                assert(rest[0] == lines@[i as int]@);
                assert(rest.skip(1) =~= all.skip(i + 1));
                assert(s@ + framed(all.skip(i + 1)) =~= before + framed(rest));
            }
            i = i + 1;
        }
        assert(s@ + framed(all.skip(lines@.len() as int)) =~= s@);
        s
    }

    /// The lines of a spool file, to be replayed in this order.
    pub fn unframe(file: &str) -> (r: Vec<String>)
        ensures
            text::views(r@) == text::lines(file@),
    {
        text::split_lines(file)
    }

    /// The order in which spool files are replayed: by name.
    pub fn replay_order(names: &Vec<String>) -> (r: Vec<String>)
        ensures
            text::views(r@) == by_name(text::views(names@)),
    {
        let ghost all = text::views(names@);
        let mut r: Vec<String> = Vec::new();
        let mut i: usize = 0;
        assert(text::views(r@) =~= by_name(all.take(0)));
        while i < names.len()
            invariant
                i <= names@.len(),
                all == text::views(names@),
                text::views(r@) == by_name(all.take(i as int)),
            decreases names@.len() - i,
        {
            proof {
                seqs::lemma_take_step(all, i as int);
            }
            insert_name(&mut r, names[i].clone());
            i = i + 1;
        }
        assert(all.take(names@.len() as int) =~= all);
        r
    }
}

/// A line that a file of lines gives back as it was: it holds no newline, and
/// does not end with a carriage return.
pub open spec fn plain_line(l: Seq<char>) -> bool {
    &&& forall|i: int| 0 <= i < l.len() ==> l[i] != '\n'
    &&& l.len() == 0 || l.last() != '\r'
}

/// Replaying what was appended gives the lines back, all of them and in
/// order.
pub proof fn law_spool_gives_back_what_was_appended(ls: Seq<Seq<char>>)
    requires
        forall|i: int| 0 <= i < ls.len() ==> plain_line(#[trigger] ls[i]),
    ensures
        text::lines(framed(ls)) == ls,
    decreases ls.len(),
{
    if ls.len() > 0 {
        let rest = ls.skip(1);
        assert forall|i: int| 0 <= i < rest.len() implies plain_line(#[trigger] rest[i]) by {
            assert(rest[i] == ls[i + 1]);
        }
        law_spool_gives_back_what_was_appended(rest);
        let s = framed(ls);
        let l = ls[0];
        assert(plain_line(l));
        lemma_first_newline(l, framed(rest));
        assert(s.take(l.len() as int) =~= l);
        assert(s.skip(l.len() as int + 1) =~= framed(rest));
        assert(text::without_cr(l) == l);
        assert(seq![l] + rest =~= ls);
    } else {
        assert(ls =~= seq![]);
    }
}

/// The first newline of a line and what follows it.
proof fn lemma_first_newline(l: Seq<char>, rest: Seq<char>)
    requires
        plain_line(l),
    ensures
        text::find(l + seq!['\n'] + rest, seq!['\n']) == Some(l.len() as int),
{
    let s = l + seq!['\n'] + rest;
    let nl = seq!['\n'];
    text::lemma_find_from(s, nl, 0);
    assert(s.subrange(l.len() as int, l.len() as int + 1) =~= nl);
    assert(text::occurs_at(s, nl, l.len() as int));
    if let Some(i) = text::find(s, nl) {
        if i < l.len() {
            assert(s.subrange(i, i + 1)[0] == l[i]);
            assert(nl[0] == '\n');
        }
    }
}

/// Spool files are replayed in the order of their names, each once.
pub proof fn law_replay_is_by_name(s: Seq<Seq<char>>)
    ensures
        by_name(s).len() == s.len(),
        by_name(s).to_multiset() == s.to_multiset(),
        forall|i: int, j: int|
            0 <= i <= j < s.len() ==> text_le(#[trigger] by_name(s)[i], #[trigger] by_name(s)[j]),
    decreases s.len(),
{
    broadcast use vstd::seq_lib::group_to_multiset_ensures;

    if s.len() > 0 {
        let init = s.drop_last();
        law_replay_is_by_name(init);
        lemma_name_in(by_name(init), s.last());
        assert(init.push(s.last()) =~= s);
        vstd::seq_lib::to_multiset_build(init, s.last());
    }
}

proof fn lemma_le_total(a: Seq<char>, b: Seq<char>)
    ensures
        text_le(a, b) || text_le(b, a),
    decreases a.len(),
{
    if a.len() > 0 && b.len() > 0 && a[0] == b[0] {
        lemma_le_total(a.skip(1), b.skip(1));
    }
}

proof fn lemma_le_reflexive(a: Seq<char>)
    ensures
        text_le(a, a),
    decreases a.len(),
{
    if a.len() > 0 {
        lemma_le_reflexive(a.skip(1));
    }
}

proof fn lemma_le_transitive(a: Seq<char>, b: Seq<char>, c: Seq<char>)
    requires
        text_le(a, b),
        text_le(b, c),
    ensures
        text_le(a, c),
    decreases a.len(),
{
    if a.len() > 0 && b.len() > 0 && c.len() > 0 && a[0] == b[0] && b[0] == c[0] {
        lemma_le_transitive(a.skip(1), b.skip(1), c.skip(1));
    }
}

proof fn lemma_name_in(s: Seq<Seq<char>>, x: Seq<char>)
    requires
        forall|i: int, j: int|
            0 <= i <= j < s.len() ==> text_le(#[trigger] s[i], #[trigger] s[j]),
    ensures
        name_in(s, x).len() == s.len() + 1,
        name_in(s, x).to_multiset() == s.to_multiset().insert(x),
        forall|i: int, j: int|
            0 <= i <= j < s.len() + 1 ==> text_le(
                #[trigger] name_in(s, x)[i],
                #[trigger] name_in(s, x)[j],
            ),
        forall|i: int|
            0 <= i < s.len() + 1 ==> #[trigger] name_in(s, x)[i] == x || (s.len() > 0 && text_le(
                name_in(s, x)[i],
                s.last(),
            )),
    decreases s.len(),
{
    broadcast use vstd::seq_lib::group_to_multiset_ensures;

    let r = name_in(s, x);
    if s.len() > 0 && !text_le(s.last(), x) {
        let init = s.drop_last();
        lemma_name_in(init, x);
        lemma_le_total(s.last(), x);
        assert(init.push(s.last()) =~= s);
        vstd::seq_lib::to_multiset_build(init, s.last());
        vstd::seq_lib::to_multiset_build(name_in(init, x), s.last());
        assert(s.to_multiset().insert(x) =~= init.to_multiset().insert(x).insert(s.last()));
        assert forall|i: int| 0 <= i < s.len() + 1 implies text_le(#[trigger] r[i], s.last()) by {
            if i < s.len() {
                assert(r[i] == name_in(init, x)[i]);
                if r[i] != x && init.len() > 0 {
                    assert(init.last() == s[s.len() - 2]);
                    assert(text_le(s[s.len() - 2], s[s.len() - 1]));
                    lemma_le_transitive(r[i], init.last(), s.last());
                }
            } else {
                lemma_le_reflexive(s.last());
            }
        }
        assert forall|i: int, j: int| 0 <= i <= j < s.len() + 1 implies text_le(
            #[trigger] r[i],
            #[trigger] r[j],
        ) by {
            if j < s.len() {
                assert(r[i] == name_in(init, x)[i] && r[j] == name_in(init, x)[j]);
            }
        }
    } else {
        vstd::seq_lib::to_multiset_build(s, x);
        assert forall|i: int, j: int| 0 <= i <= j < s.len() + 1 implies text_le(
            #[trigger] r[i],
            #[trigger] r[j],
        ) by {
            if j == s.len() {
                if i < s.len() {
                    assert(text_le(s[i], s[s.len() - 1]));
                    lemma_le_transitive(s[i], s.last(), x);
                } else {
                    lemma_le_reflexive(x);
                }
            }
        }
        assert forall|i: int| 0 <= i < s.len() + 1 implies #[trigger] r[i] == x || (s.len() > 0
            && text_le(r[i], s.last())) by {
            if i < s.len() {
                assert(text_le(s[i], s[s.len() - 1]));
            }
        }
    }
}

/// The address of a route of the server.
pub fn route(url: &str, path: &str) -> (r: String)
    ensures
        r@ == text::trim_end_char(url@, '/') + path@,
{
    text::trimmed_end_of(url, '/').concat(path)
}

/// The value of the Authorization header.
pub fn bearer(token: &str) -> (r: String)
    ensures
        r@ == "Bearer "@ + token@,
{
    text::owned("Bearer ").concat(token)
}

/// What an answer of the server means: a 2xx status is success.
pub fn accepted(status: u16) -> (r: Result<(), String>)
    ensures
        match r {
            Ok(_) => 200 <= status < 300,
            Err(e) => !(200 <= status < 300) && e@ == "server responded "@ + text::dec(
                status as nat,
            ),
        },
{
    if status >= 200 && status < 300 {
        Ok(())
    } else {
        Err(text::owned("server responded ").concat(text::dec_u64(status as u64).as_str()))
    }
}

/// What to ship after a poll.
#[derive(Debug, Clone, Copy, PartialEq, Eq, Structural)]
pub struct ShipPlan {
    pub post_events: bool,
    pub heartbeat: bool,
}

/// Decide what to ship: events when there are any, a heartbeat when the last
/// one is long enough ago; nothing without a server.
pub fn ship_plan(cfg: &Config, events: usize, secs_since_heartbeat: u64) -> (r: ShipPlan)
    ensures
        r.post_events == (events > 0 && cfg.server_url@.len() > 0),
        r.heartbeat == (secs_since_heartbeat >= cfg.heartbeat_secs && cfg.server_url@.len() > 0),
{
    let has_server = !cfg.server_url.as_str().is_empty();
    ShipPlan {
        post_events: events > 0 && has_server,
        heartbeat: secs_since_heartbeat >= cfg.heartbeat_secs && has_server,
    }
}

/// Names are ordered like words: the first character that differs decides, and
/// a name comes before what it begins.
pub proof fn law_names_are_ordered_like_words(
    common: Seq<char>,
    a: char,
    b: char,
    x: Seq<char>,
    y: Seq<char>,
)
    ensures
        text_le(common, common + x),
        x.len() > 0 ==> !text_le(common + x, common),
        a != b ==> (text_le(common + seq![a] + x, common + seq![b] + y) <==> a < b),
    decreases common.len(),
{
    if common.len() > 0 {
        let t = common.skip(1);
        law_names_are_ordered_like_words(t, a, b, x, y);
        assert((common + x).skip(1) =~= t + x);
        assert((common + seq![a] + x).skip(1) =~= t + seq![a] + x);
        assert((common + seq![b] + y).skip(1) =~= t + seq![b] + y);
        assert((common + x)[0] == common[0]);
        assert((common + seq![a] + x)[0] == common[0]);
        assert((common + seq![b] + y)[0] == common[0]);
    } else {
        assert((common + seq![a] + x)[0] == a);
        assert((common + seq![b] + y)[0] == b);
    }
}

} // verus!
