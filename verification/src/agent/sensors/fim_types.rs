//! Watched files, and the events of their changes.

use vstd::prelude::*;

use crate::common;
use crate::common::{AgentEvent, EventKind, EventView, Severity};
use crate::text;

verus! {

/// The path without trailing separators and `.` components. The root stays.
pub open spec fn path_body(p: Seq<char>) -> Seq<char>
    decreases p.len(),
{
    if p.len() > 1 && p.last() == '/' {
        path_body(p.drop_last())
    } else if p.len() > 1 && p.last() == '.' && p[p.len() - 2] == '/' {
        path_body(p.drop_last())
    } else {
        p
    }
}

/// Where the last component of a path starts.
pub open spec fn last_component(p: Seq<char>) -> int
    decreases p.len(),
{
    if p.len() == 0 || p.last() == '/' {
        p.len() as int
    } else {
        last_component(p.drop_last())
    }
}

/// The name of the file that a path ends in; none for the root, the empty
/// path, and a path that ends in `.` or `..`.
pub open spec fn file_name_of(p: Seq<char>) -> Option<Seq<char>> {
    let body = path_body(p);
    let name = body.skip(last_component(body));
    if name.len() == 0 || name == "."@ || name == ".."@ {
        None
    } else {
        Some(name)
    }
}

/// The directory that holds what a path names; none for the root and the
/// empty path.
pub open spec fn parent_of(p: Seq<char>) -> Option<Seq<char>> {
    let body = path_body(p);
    if body.len() == 0 || body == "/"@ {
        None
    } else {
        Some(path_body(body.take(last_component(body))))
    }
}

/// The length of the body of the first `n` characters.
fn body_len(v: &Vec<char>, n: usize) -> (r: usize)
    requires
        n <= v@.len(),
    ensures
        r <= n,
        v@.take(r as int) == path_body(v@.take(n as int)),
{
    let mut i: usize = n;
    while i > 1 && (v[i - 1] == '/' || (v[i - 1] == '.' && v[i - 2] == '/'))
        invariant
            i <= n <= v@.len(),
            path_body(v@.take(i as int)) == path_body(v@.take(n as int)),
        decreases i,
    {
        let ghost cur = v@.take(i as int);
        assert(cur.last() == v@[i - 1]);
        assert(cur[cur.len() - 2] == v@[i - 2]);
        assert(cur.drop_last() == v@.take(i - 1));
        i = i - 1;
    }
    proof {
        let cur = v@.take(i as int);
        if i > 1 {
            assert(cur.last() == v@[i - 1]);
            assert(cur[cur.len() - 2] == v@[i - 2]);
        }
    }
    i
}

fn component_start(v: &Vec<char>, n: usize) -> (r: usize)
    requires
        n <= v@.len(),
    ensures
        r <= n,
        r == last_component(v@.take(n as int)),
{
    let mut i: usize = n;
    while i > 0 && v[i - 1] != '/'
        invariant
            i <= n <= v@.len(),
            last_component(v@.take(i as int)) == last_component(v@.take(n as int)),
        decreases i,
    {
        assert(v@.take(i as int).last() == v@[i - 1]);
        assert(v@.take(i as int).drop_last() == v@.take(i - 1));
        i = i - 1;
    }
    assert(i > 0 ==> v@.take(i as int).last() == v@[i - 1]);
    i
}

/// One watched file. The PARENT directory is watched so atomic-replace
/// (rename over) edits are caught; events are filtered by filename.
#[derive(Debug, Clone)]
pub struct WatchedFile {
    pub path: String,
    pub file_name: String,
}

impl WatchedFile {
    /// The file at a path.
    pub fn new(path: &str) -> (r: Self)
        ensures
            r.path@ == path@,
            r.file_name@ == (match file_name_of(path@) {
                Some(n) => n,
                None => seq![],
            }),
    {
        let v = text::chars_of(path);
        assert(v@.take(v@.len() as int) == path@);
        let n = body_len(&v, v.len());
        let s = component_start(&v, n);
        let name = text::text_of(&v, s, n);
        proof {
            let body = path_body(path@);
            assert(name@ == body.skip(last_component(body)));
        }
        if text::same(name.as_str(), ".") || text::same(name.as_str(), "..") {
            let r = WatchedFile { path: text::owned(path), file_name: String::new() };
            assert(r.file_name@ =~= seq![]);
            r
        } else {
            assert(name@.len() == 0 ==> name@ =~= seq![]);
            WatchedFile { path: text::owned(path), file_name: name }
        }
    }

    /// The directory to watch.
    pub fn parent(&self) -> (r: String)
        ensures
            r@ == (match parent_of(self.path@) {
                Some(p) => p,
                None => "/"@,
            }),
    {
        let v = text::chars_of(self.path.as_str());
        assert(v@.take(v@.len() as int) == self.path@);
        let n = body_len(&v, v.len());
        let ghost body = path_body(self.path@);
        proof {
            reveal_strlit("/");
            assert("/"@.len() == 1 && "/"@[0] == '/');
        }
        if n == 0 || (n == 1 && v[0] == '/') {
            assert(n == 1 ==> body =~= "/"@);
            return text::owned("/");
        }
        assert(body != "/"@) by {
            if body == "/"@ {
                assert(body[0] == v@[0]);
            }
        }
        let s = component_start(&v, n);
        let m = body_len(&v, s);
        let r = text::text_of(&v, 0, m);
        proof {
            assert(body.take(last_component(body)) == v@.take(s as int));
            assert(r@ == v@.take(m as int));
        }
        r
    }

    /// Does a change of the named entry concern the watched file?
    pub fn relevant(&self, name: Option<&str>) -> (r: bool)
        ensures
            r == (match name {
                Some(n) => n@ == self.file_name@,
                None => false,
            }),
    {
        match name {
            Some(n) => text::same(n, self.file_name.as_str()),
            None => false,
        }
    }
}

/// A raw change observed by the watcher.
#[derive(Debug, Clone, PartialEq)]
pub struct FimEvent {
    pub path: String,
    pub action: String,
}

/// What a `FimEvent` says.
#[verifier::ext_equal]
pub struct FimView {
    pub path: Seq<char>,
    pub action: Seq<char>,
}

impl View for FimEvent {
    type V = FimView;

    open spec fn view(&self) -> FimView {
        FimView { path: self.path@, action: self.action@ }
    }
}

/// The event of a changed file.
pub open spec fn change_of(path: Seq<char>, action: Seq<char>, ts: i64, host: Seq<char>) -> EventView {
    common::event_of(
        "fim-"@ + path + "-"@ + text::dec_int(ts as int),
        ts,
        host,
        "fim:"@ + path,
        EventKind::FileChanged,
        Severity::Warning,
        path + " changed ("@ + action + ")"@,
        "fim"@,
        "Action="@ + action,
    )
}

/// Build the agent event for a FimEvent.
pub fn change_event(path: &str, action: &str, ts: i64, host_id: &str) -> (e: AgentEvent)
    ensures
        e@ == change_of(path@, action@, ts, host_id@),
{
    common::make_event(
        text::owned("fim-").concat(path).concat("-").concat(text::dec_i64(ts).as_str()),
        ts,
        host_id,
        text::owned("fim:").concat(path),
        EventKind::FileChanged,
        Severity::Warning,
        text::owned(path).concat(" changed (").concat(action).concat(")"),
        "fim",
        text::owned("Action=").concat(action),
    )
}

/// The names of the inotify event bits that are told apart.
pub open spec fn mask_parts(flags: u32) -> Seq<Seq<char>> {
    let a = text::push_if(seq![], flags & 0x8 != 0, "CLOSE_WRITE"@);
    let b = text::push_if(a, flags & 0x80 != 0, "MOVED_TO"@);
    let c = text::push_if(b, flags & 0x200 != 0, "DELETE"@);
    let d = text::push_if(c, flags & 0x2 != 0, "MODIFY"@);
    text::push_if(d, d.len() == 0, "OTHER"@)
}

/// Human-readable name for the masks we care about (inotify event bits).
pub fn mask_name(flags: u32) -> (r: String)
    ensures
        r@ == text::join(mask_parts(flags), "|"@),
{
    let mut parts: Vec<String> = Vec::new();
    assert(text::views(parts@) =~= seq![]);
    text::add_if(&mut parts, flags & 0x8 != 0, "CLOSE_WRITE");
    text::add_if(&mut parts, flags & 0x80 != 0, "MOVED_TO");
    text::add_if(&mut parts, flags & 0x200 != 0, "DELETE");
    text::add_if(&mut parts, flags & 0x2 != 0, "MODIFY");
    assert(text::views(parts@).len() == parts@.len());
    let none = parts.len() == 0;
    text::add_if(&mut parts, none, "OTHER");
    text::joined(&parts, "|")
}

/// A path is its directory, a slash and its name.
pub proof fn law_paths_are_split(dir: Seq<char>, name: Seq<char>)
    requires
        name.len() > 0,
        !name.contains('/'),
        name != "."@,
        name != ".."@,
        dir.len() > 0,
        dir.last() != '/',
        dir.len() > 1 && dir.last() == '.' ==> dir[dir.len() - 2] != '/',
    ensures
        file_name_of(dir + seq!['/'] + name) == Some(name),
        parent_of(dir + seq!['/'] + name) == Some(dir),
{
    reveal_strlit(".");
    reveal_strlit("/");
    let p = dir + seq!['/'] + name;
    let n = dir.len() as int + 1;
    assert(p.last() == name.last());
    assert(name.contains(name.last())) by {
        assert(name[name.len() - 1] == name.last());
    }
    if name.len() == 1 {
        assert(p.last() == name[0]);
        if name[0] == '.' {
            assert(name =~= "."@);
        }
    } else {
        assert(p[p.len() - 2] == name[name.len() - 2]);
        assert(name.contains(name[name.len() - 2]));
    }
    assert(path_body(p) == p);
    lemma_last_component(dir + seq!['/'], name);
    assert(p.skip(n) =~= name);
    assert(p.take(n) =~= dir + seq!['/']);
    assert((dir + seq!['/']).drop_last() =~= dir);
    assert(path_body(dir + seq!['/']) == path_body(dir));
    assert(path_body(dir) == dir);
    assert(p.len() > 1);
}

proof fn lemma_last_component(head: Seq<char>, name: Seq<char>)
    requires
        head.len() > 0,
        head.last() == '/',
        !name.contains('/'),
    ensures
        last_component(head + name) == head.len(),
    decreases name.len(),
{
    let p = head + name;
    if name.len() > 0 {
        assert(name.contains(name.last())) by {
            assert(name[name.len() - 1] == name.last());
        }
        assert(p.drop_last() =~= head + name.drop_last());
        assert(!name.drop_last().contains('/')) by {
            if name.drop_last().contains('/') {
                let i = choose|i: int| 0 <= i < name.drop_last().len() && name.drop_last()[i]
                    == '/';
                assert(name[i] == '/');
            }
        }
        lemma_last_component(head, name.drop_last());
    } else {
        assert(p =~= head);
    }
}

/// Each flag that is set is named, in a fixed order, and a mask without any of
/// them is something else.
pub proof fn law_masks_are_named(flags: u32)
    ensures
        ({
            let r = mask_parts(flags);
            let none = flags & 0x8 == 0 && flags & 0x80 == 0 && flags & 0x200 == 0 && flags & 0x2
                == 0;
            &&& none <==> r == seq!["OTHER"@]
            &&& !none ==> (r.contains("CLOSE_WRITE"@) <==> flags & 0x8 != 0)
            &&& !none ==> (r.contains("MOVED_TO"@) <==> flags & 0x80 != 0)
            &&& !none ==> (r.contains("DELETE"@) <==> flags & 0x200 != 0)
            &&& !none ==> (r.contains("MODIFY"@) <==> flags & 0x2 != 0)
            &&& !none ==> !r.contains("OTHER"@)
        }),
{
    reveal_strlit("CLOSE_WRITE");
    reveal_strlit("MOVED_TO");
    reveal_strlit("DELETE");
    reveal_strlit("MODIFY");
    reveal_strlit("OTHER");
    assert("CLOSE_WRITE"@.len() == 11 && "MOVED_TO"@.len() == 8 && "OTHER"@.len() == 5);
    assert("DELETE"@[0] == 'D' && "MODIFY"@[0] == 'M' && "DELETE"@.len() == 6 && "MODIFY"@.len()
        == 6);
    let e = Seq::<Seq<char>>::empty();
    let a = text::push_if(e, flags & 0x8 != 0, "CLOSE_WRITE"@);
    let b = text::push_if(a, flags & 0x80 != 0, "MOVED_TO"@);
    let c = text::push_if(b, flags & 0x200 != 0, "DELETE"@);
    let d = text::push_if(c, flags & 0x2 != 0, "MODIFY"@);
    let r = text::push_if(d, d.len() == 0, "OTHER"@);
    assert(mask_parts(flags) == r);
    lemma_pushed(e, flags & 0x8 != 0, "CLOSE_WRITE"@);
    lemma_pushed(a, flags & 0x80 != 0, "MOVED_TO"@);
    lemma_pushed(b, flags & 0x200 != 0, "DELETE"@);
    lemma_pushed(c, flags & 0x2 != 0, "MODIFY"@);
    lemma_pushed(d, d.len() == 0, "OTHER"@);
    if d.len() == 0 {
        assert(r =~= seq!["OTHER"@]);
    } else {
        assert(!d.contains("OTHER"@));
        if r == seq!["OTHER"@] {
            assert(r[0] == "OTHER"@);
        }
    }
}

proof fn lemma_pushed(s: Seq<Seq<char>>, present: bool, t: Seq<char>)
    ensures
        forall|x: Seq<char>| #[trigger]
            text::push_if(s, present, t).contains(x) <==> s.contains(x) || (present && x == t),
{
    let r = text::push_if(s, present, t);
    assert forall|x: Seq<char>| #[trigger] r.contains(x) <==> s.contains(x) || (present && x
        == t) by {
        if s.contains(x) {
            let i = choose|i: int| 0 <= i < s.len() && s[i] == x;
            assert(r[i] == x);
        }
        if present {
            assert(r[s.len() as int] == t);
        }
        if r.contains(x) && x != t {
            let i = choose|i: int| 0 <= i < r.len() && r[i] == x;
            assert(s[i] == x);
        }
    }
}

/// A change of a file is a Warning that names the file.
pub proof fn law_changes_are_told(path: Seq<char>, action: Seq<char>, ts: i64, host: Seq<char>)
    ensures
        ({
            let e = change_of(path, action, ts, host);
            &&& e.kind is FileChanged
            &&& e.severity is Warning
            &&& e.key == "fim:"@ + path
            &&& e.ts == ts
            &&& e.host_id == host
            &&& e.summary == path + " changed ("@ + action + ")"@
        }),
{
}

} // verus!
