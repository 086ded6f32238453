//! Container states, and containers that stop or restart again and again.

use vstd::prelude::*;

use crate::agent::cmd;
use crate::agent::cmd::CommandRunner;
use crate::common;
use crate::common::{AgentEvent, EventKind, EventView, Severity};
use crate::json;
use crate::seqs;
use crate::table;
use crate::table::{Table, TextSet};
use crate::text;

verus! {

/// One `docker ps` line (--format '{{json .}}').
#[derive(Debug, Clone, PartialEq)]
pub struct DockerPsLine {
    pub id: String,
    pub names: String,
    pub image: String,
    pub state: String,
    pub status: String,
}

/// Reduced container state for tracking.
#[derive(Debug, Clone, PartialEq)]
pub struct ContainerState {
    pub id: String,
    pub name: String,
    pub image: String,
    pub state: String,
}

/// What a `ContainerState` says.
#[verifier::ext_equal]
pub struct ContainerView {
    pub id: Seq<char>,
    pub name: Seq<char>,
    pub image: Seq<char>,
    pub state: Seq<char>,
}

impl View for ContainerState {
    type V = ContainerView;

    open spec fn view(&self) -> ContainerView {
        ContainerView {
            id: self.id@,
            name: self.name@,
            image: self.image@,
            state: self.state@,
        }
    }
}

/// What each container of a list says.
pub open spec fn container_views(v: Seq<ContainerState>) -> Seq<ContainerView> {
    v.map_values(|c: ContainerState| c@)
}

/// The container of the five texts that a line holds; none when one is
/// missing.
pub open spec fn container_of(
    id: Option<Seq<char>>,
    names: Option<Seq<char>>,
    image: Option<Seq<char>>,
    state: Option<Seq<char>>,
    status: Option<Seq<char>>,
) -> Option<ContainerView> {
    match (id, names, image, state, status) {
        (Some(id), Some(name), Some(image), Some(state), Some(_)) => Some(
            ContainerView { id, name, image, state },
        ),
        _ => None,
    }
}

/// The container of a list of its five texts, in the order of the fields.
pub open spec fn listed_container(list: Option<Seq<Seq<char>>>) -> Option<ContainerView> {
    match list {
        Some(v) => if v.len() == 5 {
            container_of(Some(v[0]), Some(v[1]), Some(v[2]), Some(v[3]), Some(v[4]))
        } else {
            None
        },
        None => None,
    }
}

/// The container of one line of `docker ps --format '{{json .}}'`: an object
/// with the five texts, or an array of them.
pub open spec fn json_container(line: Seq<char>) -> Option<ContainerView> {
    match listed_container(json::string_list(line)) {
        Some(c) => Some(c),
        None => container_of(
            json::string_member(line, "ID"@),
            json::string_member(line, "Names"@),
            json::string_member(line, "Image"@),
            json::string_member(line, "State"@),
            json::string_member(line, "Status"@),
        ),
    }
}

/// Gather the five texts of a line.
pub fn ps_line(
    id: Option<String>,
    names: Option<String>,
    image: Option<String>,
    state: Option<String>,
    status: Option<String>,
) -> (r: Option<DockerPsLine>)
    ensures
        match r {
            Some(l) => {
                &&& text::opt_view(id) == Some(l.id@)
                &&& text::opt_view(names) == Some(l.names@)
                &&& text::opt_view(image) == Some(l.image@)
                &&& text::opt_view(state) == Some(l.state@)
                &&& text::opt_view(status) == Some(l.status@)
            },
            None => id is None || names is None || image is None || state is None || status is None,
        },
{
    Some(DockerPsLine { id: id?, names: names?, image: image?, state: state?, status: status? })
}

/// Gather the five texts of a line that is an array of them.
pub fn ps_array(list: Option<Vec<String>>) -> (r: Option<DockerPsLine>)
    ensures
        match r {
            Some(l) => json::list_view(list) == Some(
                seq![l.id@, l.names@, l.image@, l.state@, l.status@],
            ),
            None => json::list_view(list) matches Some(v) ==> v.len() != 5,
        },
{
    let v = list?;
    if v.len() != 5 {
        return None;
    }
    let l = DockerPsLine {
        id: v[0].clone(),
        names: v[1].clone(),
        image: v[2].clone(),
        state: v[3].clone(),
        status: v[4].clone(),
    };
    assert(text::views(v@) =~= seq![l.id@, l.names@, l.image@, l.state@, l.status@]);
    Some(l)
}

/// Parse one line: an array of the five texts, or an object that holds them.
/// Where an object repeats a member, the last one counts.
fn parse_line(line: &str) -> (r: Option<DockerPsLine>)
    ensures
        match r {
            Some(l) => json_container(line@) == Some(
                ContainerView { id: l.id@, name: l.names@, image: l.image@, state: l.state@ },
            ),
            None => json_container(line@) is None,
        },
{
    match ps_array(json::read_strings(line)) {
        Some(l) => Some(l),
        None => ps_line(
            json::get_string(line, "ID"),
            json::get_string(line, "Names"),
            json::get_string(line, "Image"),
            json::get_string(line, "State"),
            json::get_string(line, "Status"),
        ),
    }
}

/// Parse `docker ps --format '{{json .}}'` output: one JSON object per line.
/// Lines that are no container are skipped (fail-open).
pub fn parse_docker_ps(out: &str) -> (r: Result<Vec<ContainerState>, String>)
    ensures
        r is Ok,
        container_views(r->Ok_0@) == containers_of(out@),
{
    let ls = text::split_lines(out);
    let ghost all = text::lines(out@);
    let ghost f = |l: Seq<char>| json_container(l);
    let mut containers: Vec<ContainerState> = Vec::new();
    let mut i: usize = 0;
    assert(container_views(containers@) == seqs::picked(all.take(0), f));
    while i < ls.len()
        invariant
            i <= ls@.len(),
            text::views(ls@) == all,
            f == (|l: Seq<char>| json_container(l)),
            container_views(containers@) == seqs::picked(all.take(i as int), f),
        decreases ls@.len() - i,
    {
        proof {
            seqs::lemma_take_step(all, i as int);
            assert(all[i as int] == ls@[i as int]@);
        }
        let parsed = parse_line(ls[i].as_str());
        let ghost before = containers@;
        match parsed {
            Some(v) => {
                let c = ContainerState { id: v.id, name: v.names, image: v.image, state: v.state };
                assert(json_container(all[i as int]) == Some(c@));
                containers.push(c);
                assert(container_views(containers@) == container_views(before).push(c@));
            },
            None => {},
        }
        i = i + 1;
    }
    assert(all.take(ls@.len() as int) == all);
    Ok(containers)
}

/// The arguments that list the containers.
pub open spec fn ps_args() -> Seq<Seq<char>> {
    seq!["ps"@, "-a"@, "--no-trunc"@, "--format"@, "{{json .}}"@]
}

/// Ask docker for the containers.
pub fn ask_containers<R: CommandRunner>(runner: &R) -> (out: Result<String, String>)
    ensures
        cmd::answers(*runner, ps_args(), out),
{
    let mut args: Vec<&str> = Vec::new();
    args.push("ps");
    args.push("-a");
    args.push("--no-trunc");
    args.push("--format");
    args.push("{{json .}}");
    assert(cmd::arg_views(args@) == ps_args());
    cmd::run_args(runner, &args)
}

/// The containers of the output of `docker ps --format '{{json .}}'`.
pub open spec fn containers_of(out: Seq<char>) -> Seq<ContainerView> {
    seqs::picked(text::lines(out), |l: Seq<char>| json_container(l))
}

/// What the tracker remembers: the state last seen by name, and how often in a
/// row a container was seen restarting.
#[verifier::ext_equal]
pub struct TrackerView {
    pub prev: Seq<(Seq<char>, Seq<char>)>,
    pub restarting_count: Seq<(Seq<char>, u32)>,
}

/// Whether a container has just stopped: it was running, and is exited or dead.
pub open spec fn stops_now(v: TrackerView, c: ContainerView) -> bool {
    table::lookup(v.prev, c.name) == Some("running"@) && (c.state == "exited"@ || c.state
        == "dead"@)
}

/// How often in a row a container that is restarting has been seen so.
pub open spec fn restart_count(v: TrackerView, name: Seq<char>) -> int {
    match table::lookup(v.restarting_count, name) {
        Some(n) => n + 1,
        None => 1,
    }
}

/// Whether a container completes a crash loop: seen restarting for the third
/// time in a row.
pub open spec fn loops_now(v: TrackerView, c: ContainerView) -> bool {
    c.state == "restarting"@ && restart_count(v, c.name) >= 3
}

/// What the tracker remembers after seeing a container.
pub open spec fn container_after(v: TrackerView, c: ContainerView) -> TrackerView {
    TrackerView {
        prev: table::put(v.prev, c.name, c.state),
        restarting_count: if c.state == "restarting"@ && !loops_now(v, c) {
            table::put(v.restarting_count, c.name, restart_count(v, c.name) as u32)
        } else {
            table::without(v.restarting_count, c.name)
        },
    }
}

/// The event of a container that has just stopped.
pub open spec fn stop_event(c: ContainerView, ts: i64, host: Seq<char>) -> EventView {
    common::event_of(
        "dstop-"@ + c.name + "-"@ + text::dec_int(ts as int),
        ts,
        host,
        "docker:"@ + c.name,
        EventKind::ContainerStopped,
        Severity::Warning,
        "container "@ + c.name + " stopped ("@ + c.image + ")"@,
        "docker"@,
        "Container="@ + c.name + " State="@ + c.state,
    )
}

/// The event of a container in a crash loop.
pub open spec fn loop_event(c: ContainerView, n: int, ts: i64, host: Seq<char>) -> EventView {
    common::event_of(
        "dloop-"@ + c.name + "-"@ + text::dec_int(ts as int),
        ts,
        host,
        "docker:"@ + c.name,
        EventKind::ContainerCrashLoop,
        Severity::Critical,
        "container "@ + c.name + " is crash-looping"@,
        "docker"@,
        "Container="@ + c.name + " RestartCount="@ + text::dec(n as nat),
    )
}

/// The events of seeing a container.
pub open spec fn container_events(
    v: TrackerView,
    c: ContainerView,
    ts: i64,
    host: Seq<char>,
) -> Seq<EventView> {
    if stops_now(v, c) {
        seq![stop_event(c, ts, host)]
    } else if loops_now(v, c) {
        seq![loop_event(c, restart_count(v, c.name), ts, host)]
    } else {
        seq![]
    }
}

/// What the tracker remembers, and the events, after seeing containers in order.
pub open spec fn containers_pass(
    v: TrackerView,
    cs: Seq<ContainerView>,
    ts: i64,
    host: Seq<char>,
) -> (TrackerView, Seq<EventView>)
    decreases cs.len(),
{
    if cs.len() == 0 {
        (v, seq![])
    } else {
        let (w, evs) = containers_pass(v, cs.drop_last(), ts, host);
        (container_after(w, cs.last()), evs + container_events(w, cs.last(), ts, host))
    }
}

/// Whether a name is that of one of the containers.
pub open spec fn is_named(cs: Seq<ContainerView>, name: Seq<char>) -> bool {
    exists|i: int| 0 <= i < cs.len() && (#[trigger] cs[i]).name == name
}

/// What the tracker remembers after a list of containers: those that are not
/// in the list any more are forgotten.
pub open spec fn tracker_after(
    v: TrackerView,
    cs: Seq<ContainerView>,
    ts: i64,
    host: Seq<char>,
) -> TrackerView {
    let w = containers_pass(v, cs, ts, host).0;
    TrackerView {
        prev: table::only(w.prev, |name: Seq<char>| is_named(cs, name)),
        restarting_count: table::only(w.restarting_count, |name: Seq<char>| is_named(cs, name)),
    }
}

/// Every count in a table is below three.
pub open spec fn counts_small(s: Seq<(Seq<char>, u32)>) -> bool {
    forall|i: int| 0 <= i < s.len() ==> (#[trigger] s[i]).1 < 3
}

proof fn lemma_counts_lookup(s: Seq<(Seq<char>, u32)>, k: Seq<char>)
    requires
        counts_small(s),
    ensures
        table::lookup(s, k) matches Some(n) ==> n < 3,
    decreases s.len(),
{
    if s.len() > 0 {
        assert(s[0].1 < 3);
        assert forall|i: int| 0 <= i < s.skip(1).len() implies (#[trigger] s.skip(1)[i]).1 < 3 by {
            assert(s.skip(1)[i] == s[i + 1]);
        }
        lemma_counts_lookup(s.skip(1), k);
    }
}

proof fn lemma_counts_put(s: Seq<(Seq<char>, u32)>, k: Seq<char>, n: u32)
    requires
        counts_small(s),
        n < 3,
    ensures
        counts_small(table::put(s, k, n)),
    decreases s.len(),
{
    if s.len() > 0 && s[0].0 != k {
        assert forall|i: int| 0 <= i < s.skip(1).len() implies (#[trigger] s.skip(1)[i]).1 < 3 by {
            assert(s.skip(1)[i] == s[i + 1]);
        }
        lemma_counts_put(s.skip(1), k, n);
        let r = table::put(s, k, n);
        assert forall|i: int| 0 <= i < r.len() implies (#[trigger] r[i]).1 < 3 by {
            if i == 0 {
                assert(r[0] == s[0]);
            } else {
                assert(r[i] == table::put(s.skip(1), k, n)[i - 1]);
            }
        }
    }
}

proof fn lemma_counts_only(s: Seq<(Seq<char>, u32)>, keep: spec_fn(Seq<char>) -> bool)
    requires
        counts_small(s),
    ensures
        counts_small(table::only(s, keep)),
    decreases s.len(),
{
    if s.len() > 0 {
        assert forall|i: int| 0 <= i < s.drop_last().len() implies (#[trigger] s.drop_last()[i]).1
            < 3 by {
            assert(s.drop_last()[i] == s[i]);
        }
        lemma_counts_only(s.drop_last(), keep);
        assert(s[s.len() - 1].1 < 3);
    }
}

/// Per-container transition tracker: running to exited is a stop (Warning);
/// three consecutive "restarting" observations are a crash loop (Critical, the
/// episode resets on emit).
pub struct ContainerTracker {
    pub prev: Table<String, String>,
    pub restarting_count: Table<String, u32>,
}

impl View for ContainerTracker {
    type V = TrackerView;

    open spec fn view(&self) -> TrackerView {
        TrackerView { prev: self.prev@, restarting_count: self.restarting_count@ }
    }
}

impl Default for ContainerTracker {
    fn default() -> (r: Self)
        ensures
            r@ == (TrackerView { prev: seq![], restarting_count: seq![] }),
            r.wf(),
    {
        let r = ContainerTracker { prev: Table::new(), restarting_count: Table::new() };
        assert(r@.prev =~= seq![] && r@.restarting_count =~= seq![]);
        r
    }
}

impl ContainerTracker {
    /// No count reaches three: the episode resets there.
    pub open spec fn wf(&self) -> bool {
        counts_small(self@.restarting_count)
    }

    /// See one container.
    fn observe_one(
        &mut self,
        c: &ContainerState,
        ts: i64,
        host_id: &str,
        evs: &mut Vec<AgentEvent>,
    )
        requires
            old(self).wf(),
        ensures
            final(self).wf(),
            final(self)@ == container_after(old(self)@, c@),
            common::events(final(evs)@) == common::events(old(evs)@) + container_events(
                old(self)@,
                c@,
                ts,
                host_id@,
            ),
    {
        let ghost v = self@;
        proof {
            lemma_counts_lookup(v.restarting_count, c.name@);
            lemma_counts_only(v.restarting_count, |a: Seq<char>| a != c.name@);
            reveal_strlit("exited");
            reveal_strlit("dead");
            reveal_strlit("restarting");
            assert("exited"@.len() == 6 && "dead"@.len() == 4 && "restarting"@.len() == 10);
        }
        let was_running = match self.prev.get(&c.name) {
            Some(s) => text::same(s.as_str(), "running"),
            None => false,
        };
        self.prev.set(c.name.clone(), c.state.clone());
        let stopped = was_running && (text::same(c.state.as_str(), "exited") || text::same(
            c.state.as_str(),
            "dead",
        ));
        assert(stopped == stops_now(v, c@));
        let ghost before = evs@;
        if stopped {
            let ev = common::make_event(
                text::owned("dstop-").concat(c.name.as_str()).concat("-").concat(
                    text::dec_i64(ts).as_str(),
                ),
                ts,
                host_id,
                text::owned("docker:").concat(c.name.as_str()),
                EventKind::ContainerStopped,
                Severity::Warning,
                text::owned("container ").concat(c.name.as_str()).concat(" stopped (").concat(
                    c.image.as_str(),
                ).concat(")"),
                "docker",
                text::owned("Container=").concat(c.name.as_str()).concat(" State=").concat(
                    c.state.as_str(),
                ),
            );
            evs.push(ev);
            proof {
                common::lemma_events_push(before, ev);
            }
        }
        if text::same(c.state.as_str(), "restarting") {
            let n: u32 = match self.restarting_count.get(&c.name) {
                Some(k) => *k + 1,
                None => 1,
            };
            assert(n == restart_count(v, c.name@));
            if n >= 3 {
                let ev = common::make_event(
                    text::owned("dloop-").concat(c.name.as_str()).concat("-").concat(
                        text::dec_i64(ts).as_str(),
                    ),
                    ts,
                    host_id,
                    text::owned("docker:").concat(c.name.as_str()),
                    EventKind::ContainerCrashLoop,
                    Severity::Critical,
                    text::owned("container ").concat(c.name.as_str()).concat(" is crash-looping"),
                    "docker",
                    text::owned("Container=").concat(c.name.as_str()).concat(
                        " RestartCount=",
                    ).concat(text::dec_u64(n as u64).as_str()),
                );
                evs.push(ev);
                proof {
                    common::lemma_events_push(before, ev);
                }
                self.restarting_count.remove(&c.name);
            } else {
                self.restarting_count.set(c.name.clone(), n);
                proof {
                    lemma_counts_put(v.restarting_count, c.name@, n);
                }
            }
        } else {
            self.restarting_count.remove(&c.name);
        }
        assert(common::events(evs@) == common::events(before) + container_events(
            v,
            c@,
            ts,
            host_id@,
        ));
    }

    /// See all containers at once.
    pub fn observe(
        &mut self,
        containers: &Vec<ContainerState>,
        ts: i64,
        host_id: &str,
        evs: &mut Vec<AgentEvent>,
    )
        requires
            old(self).wf(),
        ensures
            final(self).wf(),
            final(self)@ == tracker_after(
                old(self)@,
                container_views(containers@),
                ts,
                host_id@,
            ),
            common::events(final(evs)@) == common::events(old(evs)@) + containers_pass(
                old(self)@,
                container_views(containers@),
                ts,
                host_id@,
            ).1,
    {
        let ghost v = self@;
        let ghost cs = container_views(containers@);
        let ghost evs0 = common::events(evs@);
        let mut seen = TextSet::new();
        let mut i: usize = 0;
        assert(cs.take(0) =~= seq![]);
        assert(common::events(evs@) == evs0 + containers_pass(v, cs.take(0), ts, host_id@).1);
        while i < containers.len()
            invariant
                i <= containers@.len(),
                cs == container_views(containers@),
                self.wf(),
                self@ == containers_pass(v, cs.take(i as int), ts, host_id@).0,
                common::events(evs@) == evs0 + containers_pass(
                    v,
                    cs.take(i as int),
                    ts,
                    host_id@,
                ).1,
                forall|name: Seq<char>| #[trigger]
                    seen@.contains(name) <==> is_named(cs.take(i as int), name),
            decreases containers@.len() - i,
        {
            let ghost seen0 = seen@;
            let ghost done = cs.take(i as int);
            let ghost more = cs.take(i + 1);
            proof {
                seqs::lemma_take_step(cs, i as int);
                assert(cs[i as int] == containers@[i as int]@);
                table::law_with_item(seen0, containers@[i as int].name@);
            }
            let fresh = seen.insert(containers[i].name.as_str());
            self.observe_one(&containers[i], ts, host_id, evs);
            proof {
                let (w, es) = containers_pass(v, done, ts, host_id@);
                let step = container_events(w, cs[i as int], ts, host_id@);
                assert(evs0 + es + step == evs0 + (es + step));
                assert forall|name: Seq<char>| #[trigger] seen@.contains(name) <==> is_named(
                    more,
                    name,
                ) by {
                    assert(seen0.contains(name) <==> is_named(done, name));
                    assert(seen@.contains(name) <==> (seen0.contains(name) || name
                        == cs[i as int].name));
                    if is_named(done, name) {
                        let k = choose|k: int|
                            0 <= k < done.len() && (#[trigger] done[k]).name == name;
                        assert(more[k].name == name);
                    }
                    if name == cs[i as int].name {
                        assert(more[i as int].name == name);
                    }
                    if is_named(more, name) {
                        let k = choose|k: int|
                            0 <= k < more.len() && (#[trigger] more[k]).name == name;
                        if k < i {
                            assert(done[k].name == name);
                        }
                    }
                }
            }
            i = i + 1;
        }
        assert(cs.take(containers@.len() as int) == cs);
        let ghost w = self@;
        self.prev.retain_keys(&seen);
        self.restarting_count.retain_keys(&seen);
        proof {
            let kept = |a: Seq<char>| seen@.contains(a);
            let named = |name: Seq<char>| is_named(cs, name);
            lemma_only_same(w.prev, kept, named);
            lemma_only_same(w.restarting_count, kept, named);
            lemma_counts_only(w.restarting_count, kept);
        }
    }
}

/// Tests that agree keep the same entries.
proof fn lemma_only_same<B>(
    s: Seq<(Seq<char>, B)>,
    p: spec_fn(Seq<char>) -> bool,
    q: spec_fn(Seq<char>) -> bool,
)
    requires
        forall|a: Seq<char>| #[trigger] p(a) == q(a),
    ensures
        table::only(s, p) == table::only(s, q),
    decreases s.len(),
{
    if s.len() > 0 {
        lemma_only_same(s.drop_last(), p, q);
    }
}

/// A container that keeps running gives no event, and is remembered as running.
pub proof fn law_steady_running_is_quiet(v: TrackerView, c: ContainerView, ts: i64, host: Seq<char>)
    requires
        c.state == "running"@,
    ensures
        container_events(v, c, ts, host).len() == 0,
        table::lookup(container_after(v, c).prev, c.name) == Some("running"@),
{
    reveal_strlit("running");
    reveal_strlit("exited");
    reveal_strlit("dead");
    reveal_strlit("restarting");
    assert("running"@.len() == 7 && "exited"@.len() == 6 && "dead"@.len() == 4
        && "restarting"@.len() == 10);
    table::law_put_then_lookup(v.prev, c.name, c.state, c.name);
}

/// A crash loop is reported on the third sight of a restarting container in a
/// row, and the counting starts anew after it.
pub proof fn law_crash_loop_episode(v: TrackerView, c: ContainerView)
    requires
        c.state == "restarting"@,
    ensures
        loops_now(v, c) <==> (table::lookup(v.restarting_count, c.name) matches Some(n) && n >= 2),
        loops_now(v, c) ==> table::lookup(container_after(v, c).restarting_count, c.name) is None,
        !loops_now(v, c) ==> table::lookup(container_after(v, c).restarting_count, c.name) == Some(
            restart_count(v, c.name) as u32,
        ),
{
    table::law_put_then_lookup(
        v.restarting_count,
        c.name,
        restart_count(v, c.name) as u32,
        c.name,
    );
    table::law_without_then_lookup(v.restarting_count, c.name, c.name);
}

/// A list of containers, and when it was taken.
#[verifier::ext_equal]
pub struct Listing {
    pub ts: i64,
    pub containers: Seq<ContainerView>,
}

/// What the tracker remembers after lists of containers in order, having seen
/// nothing before.
pub open spec fn watched(lists: Seq<Listing>, host: Seq<char>) -> TrackerView
    decreases lists.len(),
{
    if lists.len() == 0 {
        TrackerView { prev: seq![], restarting_count: seq![] }
    } else {
        tracker_after(
            watched(lists.drop_last(), host),
            lists.last().containers,
            lists.last().ts,
            host,
        )
    }
}

/// No two containers of a list have the same name.
pub open spec fn names_differ(cs: Seq<ContainerView>) -> bool {
    forall|i: int, j: int|
        0 <= i < j < cs.len() ==> (#[trigger] cs[i]).name != (#[trigger] cs[j]).name
}

/// The state in which a list shows a container.
pub open spec fn state_in(cs: Seq<ContainerView>, name: Seq<char>) -> Option<Seq<char>>
    decreases cs.len(),
{
    if cs.len() == 0 {
        None
    } else if cs.last().name == name {
        Some(cs.last().state)
    } else {
        state_in(cs.drop_last(), name)
    }
}

/// How many of the last lists, without a gap, show a container restarting.
pub open spec fn restarting_run(lists: Seq<Listing>, name: Seq<char>) -> nat
    decreases lists.len(),
{
    if lists.len() == 0 || state_in(lists.last().containers, name) != Some("restarting"@) {
        0
    } else {
        restarting_run(lists.drop_last(), name) + 1
    }
}

/// The state in which the last list shows a container.
pub open spec fn last_state_of(lists: Seq<Listing>, name: Seq<char>) -> Option<
    Seq<char>,
> {
    if lists.len() == 0 {
        None
    } else {
        state_in(lists.last().containers, name)
    }
}

/// A count of sights in a row, as it is remembered: every third starts anew.
pub open spec fn remembered(run: nat) -> Option<u32> {
    if run % 3 == 0 {
        None
    } else {
        Some((run % 3) as u32)
    }
}

/// What a pass over a list does to one container: it changes what is
/// remembered only at that container's place.
proof fn lemma_pass_of_one(
    v: TrackerView,
    cs: Seq<ContainerView>,
    name: Seq<char>,
    ts: i64,
    host: Seq<char>,
)
    requires
        names_differ(cs),
        table::lookup(v.restarting_count, name) matches Some(n) ==> n < 3,
    ensures
        ({
            let w = containers_pass(v, cs, ts, host).0;
            match state_in(cs, name) {
                None => !is_named(cs, name) && table::lookup(w.prev, name) == table::lookup(
                    v.prev,
                    name,
                ) && table::lookup(w.restarting_count, name) == table::lookup(
                    v.restarting_count,
                    name,
                ),
                Some(s) => is_named(cs, name) && table::lookup(w.prev, name) == Some(s)
                    && table::lookup(w.restarting_count, name) == (if s == "restarting"@
                    && restart_count(v, name) < 3 {
                    Some(restart_count(v, name) as u32)
                } else {
                    None
                }),
            }
        }),
    decreases cs.len(),
{
    if cs.len() > 0 {
        let init = cs.drop_last();
        let c = cs.last();
        assert forall|i: int, j: int| 0 <= i < j < init.len() implies (#[trigger] init[i]).name != (
        #[trigger] init[j]).name by {
            assert(init[i] == cs[i] && init[j] == cs[j]);
        }
        lemma_pass_of_one(v, init, name, ts, host);
        let w = containers_pass(v, init, ts, host).0;
        table::law_put_then_lookup(w.prev, c.name, c.state, name);
        table::law_put_then_lookup(
            w.restarting_count,
            c.name,
            restart_count(w, c.name) as u32,
            name,
        );
        table::law_without_then_lookup(w.restarting_count, c.name, name);
        assert(cs[cs.len() - 1] == c);
        if is_named(init, name) {
            let k = choose|k: int| 0 <= k < init.len() && (#[trigger] init[k]).name == name;
            assert(cs[k].name == name);
        }
        if is_named(cs, name) && c.name != name {
            let k = choose|k: int| 0 <= k < cs.len() && (#[trigger] cs[k]).name == name;
            assert(init[k].name == name);
        }
    }
}

/// What is remembered of a container after lists in order: the state in which
/// the last list shows it, and its sights restarting in a row.
proof fn lemma_watched(
    lists: Seq<Listing>,
    name: Seq<char>,
    host: Seq<char>,
)
    requires
        forall|i: int| 0 <= i < lists.len() ==> names_differ((#[trigger] lists[i]).containers),
    ensures
        table::lookup(watched(lists, host).prev, name) == last_state_of(lists, name),
        table::lookup(watched(lists, host).restarting_count, name) == remembered(
            restarting_run(lists, name),
        ),
    decreases lists.len(),
{
    if lists.len() > 0 {
        let init = lists.drop_last();
        let cs = lists.last().containers;
        let ts = lists.last().ts;
        assert forall|i: int| 0 <= i < init.len() implies names_differ(
            (#[trigger] init[i]).containers,
        ) by {
            assert(init[i] == lists[i]);
        }
        lemma_watched(init, name, host);
        let v = watched(init, host);
        assert(names_differ(lists[lists.len() - 1].containers));
        lemma_pass_of_one(v, cs, name, ts, host);
        let w = containers_pass(v, cs, ts, host).0;
        let named = |n: Seq<char>| is_named(cs, n);
        table::law_only_then_lookup(w.prev, named, name);
        table::law_only_then_lookup(w.restarting_count, named, name);
    }
}

/// Over lists in order, a container that restarts is in a crash loop at every
/// third list in a row that shows it restarting, and at no other; one that is
/// exited or dead has stopped exactly when the list before showed it running.
/// A list without the container breaks either row.
pub proof fn law_containers_over_a_history(
    lists: Seq<Listing>,
    now: Listing,
    k: int,
    host: Seq<char>,
)
    requires
        forall|i: int| 0 <= i < lists.len() ==> names_differ((#[trigger] lists[i]).containers),
        names_differ(now.containers),
        0 <= k < now.containers.len(),
    ensures
        ({
            let front = now.containers.take(k);
            let v = containers_pass(watched(lists, host), front, now.ts, host).0;
            let c = now.containers[k];
            let run = restarting_run(lists.push(now), c.name);
            container_events(v, c, now.ts, host) == (if c.state == "restarting"@ && run % 3 == 0 {
                seq![loop_event(c, 3, now.ts, host)]
            } else if (c.state == "exited"@ || c.state == "dead"@) && last_state_of(lists, c.name)
                == Some("running"@) {
                seq![stop_event(c, now.ts, host)]
            } else {
                seq![]
            })
        }),
{
    let cs = now.containers;
    let ts = now.ts;
    let c = cs[k];
    let front = cs.take(k);
    let v0 = watched(lists, host);
    let v = containers_pass(v0, front, ts, host).0;
    lemma_watched(lists, c.name, host);
    assert forall|i: int, j: int| 0 <= i < j < front.len() implies (#[trigger] front[i]).name != (
    #[trigger] front[j]).name by {
        assert(front[i] == cs[i] && front[j] == cs[j]);
    }
    lemma_pass_of_one(v0, front, c.name, ts, host);
    if is_named(front, c.name) {
        let j = choose|j: int| 0 <= j < front.len() && (#[trigger] front[j]).name == c.name;
        assert(cs[j].name == cs[k].name);
    }
    lemma_state_in(cs, k);
    assert(lists.push(now).drop_last() =~= lists);
    reveal_strlit("exited");
    reveal_strlit("dead");
    reveal_strlit("restarting");
    assert("exited"@.len() == 6 && "dead"@.len() == 4 && "restarting"@.len() == 10);
}

/// A list shows each of its containers in that container's state.
proof fn lemma_state_in(cs: Seq<ContainerView>, k: int)
    requires
        names_differ(cs),
        0 <= k < cs.len(),
    ensures
        state_in(cs, cs[k].name) == Some(cs[k].state),
    decreases cs.len(),
{
    let init = cs.drop_last();
    if k < init.len() {
        assert forall|i: int, j: int| 0 <= i < j < init.len() implies (#[trigger] init[i]).name != (
        #[trigger] init[j]).name by {
            assert(init[i] == cs[i] && init[j] == cs[j]);
        }
        lemma_state_in(init, k);
        assert(cs[k].name != cs[cs.len() - 1].name);
    }
}

/// The event that a list brings of one of its containers, given the lists
/// before it.
pub open spec fn container_news(
    lists: Seq<Listing>,
    now: Listing,
    c: ContainerView,
    host: Seq<char>,
) -> Option<EventView> {
    if c.state == "restarting"@ && restarting_run(lists.push(now), c.name) % 3 == 0 {
        Some(loop_event(c, 3, now.ts, host))
    } else if (c.state == "exited"@ || c.state == "dead"@) && last_state_of(lists, c.name) == Some(
        "running"@,
    ) {
        Some(stop_event(c, now.ts, host))
    } else {
        None
    }
}

/// A list brings the events of its containers in their order, and no others.
pub proof fn law_a_list_brings_its_containers_news(
    lists: Seq<Listing>,
    now: Listing,
    host: Seq<char>,
)
    requires
        forall|i: int| 0 <= i < lists.len() ==> names_differ((#[trigger] lists[i]).containers),
        names_differ(now.containers),
    ensures
        containers_pass(watched(lists, host), now.containers, now.ts, host).1 == seqs::picked(
            now.containers,
            |c: ContainerView| container_news(lists, now, c, host),
        ),
{
    let cs = now.containers;
    lemma_first_containers(lists, now, cs.len() as int, host);
    assert(cs.take(cs.len() as int) =~= cs);
}

proof fn lemma_first_containers(lists: Seq<Listing>, now: Listing, k: int, host: Seq<char>)
    requires
        forall|i: int| 0 <= i < lists.len() ==> names_differ((#[trigger] lists[i]).containers),
        names_differ(now.containers),
        0 <= k <= now.containers.len(),
    ensures
        containers_pass(watched(lists, host), now.containers.take(k), now.ts, host).1
            == seqs::picked(
            now.containers.take(k),
            |c: ContainerView| container_news(lists, now, c, host),
        ),
    decreases k,
{
    if k > 0 {
        let front = now.containers.take(k);
        lemma_first_containers(lists, now, k - 1, host);
        law_containers_over_a_history(lists, now, k - 1, host);
        assert(front.drop_last() =~= now.containers.take(k - 1));
        assert(front.last() == now.containers[k - 1]);
        let evs = containers_pass(
            watched(lists, host),
            now.containers.take(k - 1),
            now.ts,
            host,
        ).1;
        assert(evs + Seq::<EventView>::empty() =~= evs);
        assert(forall|e: EventView| evs + seq![e] =~= #[trigger] evs.push(e));
    }
}

/// What one look at a container tells: a Warning where it was running and has
/// exited or died, a critical crash loop at the third restart in a row, and
/// nothing otherwise. The state and the row of restarts are remembered.
pub proof fn law_a_look_at_a_container(v: TrackerView, c: ContainerView, ts: i64, host: Seq<char>)
    ensures
        ({
            let evs = container_events(v, c, ts, host);
            let w = container_after(v, c);
            let was_running = table::lookup(v.prev, c.name) == Some("running"@);
            let row = table::lookup(v.restarting_count, c.name);
            &&& was_running && (c.state == "exited"@ || c.state == "dead"@) ==> evs.len() == 1
                && evs[0].kind is ContainerStopped && evs[0].severity is Warning && evs[0].key
                == "docker:"@ + c.name && evs[0].ts == ts && evs[0].host_id == host
            &&& !was_running && (c.state == "exited"@ || c.state == "dead"@) ==> evs.len() == 0
            &&& c.state == "restarting"@ && (row matches Some(n) && n >= 2) ==> evs.len() == 1
                && evs[0].kind is ContainerCrashLoop && evs[0].severity is Critical && evs[0].key
                == "docker:"@ + c.name && evs[0].ts == ts && evs[0].host_id == host
                && table::lookup(w.restarting_count, c.name) is None
            &&& c.state == "restarting"@ && row is None ==> evs.len() == 0 && table::lookup(
                w.restarting_count,
                c.name,
            ) == Some(1u32)
            &&& c.state == "restarting"@ && row == Some(1u32) ==> evs.len() == 0 && table::lookup(
                w.restarting_count,
                c.name,
            ) == Some(2u32)
            &&& c.state != "restarting"@ ==> table::lookup(w.restarting_count, c.name) is None
            &&& c.state != "restarting"@ && c.state != "exited"@ && c.state != "dead"@
                ==> evs.len() == 0
            &&& table::lookup(w.prev, c.name) == Some(c.state)
        }),
        forall|other: Seq<char>|
            other != c.name ==> #[trigger] table::lookup(container_after(v, c).prev, other)
                == table::lookup(v.prev, other),
        forall|other: Seq<char>|
            other != c.name ==> #[trigger] table::lookup(
                container_after(v, c).restarting_count,
                other,
            ) == table::lookup(v.restarting_count, other),
{
    reveal_strlit("exited");
    reveal_strlit("dead");
    reveal_strlit("restarting");
    assert("exited"@.len() == 6 && "dead"@.len() == 4 && "restarting"@.len() == 10);
    let n = restart_count(v, c.name) as u32;
    table::law_put_then_lookup(v.prev, c.name, c.state, c.name);
    table::law_put_then_lookup(v.restarting_count, c.name, n, c.name);
    table::law_without_then_lookup(v.restarting_count, c.name, c.name);
    assert forall|other: Seq<char>| other != c.name implies #[trigger] table::lookup(
        container_after(v, c).prev,
        other,
    ) == table::lookup(v.prev, other) by {
        table::law_put_then_lookup(v.prev, c.name, c.state, other);
    }
    assert forall|other: Seq<char>| other != c.name implies #[trigger] table::lookup(
        container_after(v, c).restarting_count,
        other,
    ) == table::lookup(v.restarting_count, other) by {
        table::law_put_then_lookup(v.restarting_count, c.name, n, other);
        table::law_without_then_lookup(v.restarting_count, c.name, other);
    }
}

/// What is not in a list is forgotten: a container that comes back is at first
/// sight again.
pub proof fn law_absent_containers_are_forgotten(
    v: TrackerView,
    cs: Seq<ContainerView>,
    ts: i64,
    host: Seq<char>,
    name: Seq<char>,
)
    requires
        forall|i: int| 0 <= i < cs.len() ==> (#[trigger] cs[i]).name != name,
    ensures
        table::lookup(tracker_after(v, cs, ts, host).prev, name) is None,
        table::lookup(tracker_after(v, cs, ts, host).restarting_count, name) is None,
{
    let w = containers_pass(v, cs, ts, host).0;
    let keep = |n: Seq<char>| is_named(cs, n);
    table::law_only_then_lookup(w.prev, keep, name);
    table::law_only_then_lookup(w.restarting_count, keep, name);
}

/// A container is read from its five members, and a line that lacks one shows
/// none.
pub proof fn law_containers_are_read_whole(
    id: Option<Seq<char>>,
    names: Option<Seq<char>>,
    image: Option<Seq<char>>,
    state: Option<Seq<char>>,
    status: Option<Seq<char>>,
)
    ensures
        ({
            let r = container_of(id, names, image, state, status);
            &&& r is None <==> id is None || names is None || image is None || state is None
                || status is None
            &&& r matches Some(c) ==> Some(c.id) == id && Some(c.name) == names && Some(c.image)
                == image && Some(c.state) == state
        }),
{
}

/// Every line of docker's list that shows a container is read.
pub proof fn law_lists_are_read_whole(out: Seq<char>, c: ContainerView)
    ensures
        containers_of(out).contains(c) <==> exists|i: int|
            0 <= i < text::lines(out).len() && json_container(#[trigger] text::lines(out)[i])
                == Some(c),
{
    let f = |l: Seq<char>| json_container(l);
    let ls = text::lines(out);
    seqs::lemma_picked(ls, f, c);
    if exists|i: int| 0 <= i < ls.len() && json_container(#[trigger] ls[i]) == Some(c) {
        let i = choose|i: int| 0 <= i < ls.len() && json_container(#[trigger] ls[i]) == Some(c);
        assert(f(ls[i]) == Some(c));
    }
    if containers_of(out).contains(c) {
        let i = choose|i: int| 0 <= i < ls.len() && f(#[trigger] ls[i]) == Some(c);
        assert(json_container(ls[i]) == Some(c));
    }
}

} // verus!
