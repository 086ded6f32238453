//! Minimal exception-capture SDK. Apps call [`Client::capture`] with the
//! exception type, message, level, and stack frames; the server fingerprints
//! and groups them into incidents.

use vstd::prelude::*;

use crate::json;
use crate::json::{Json, JsonView};
use crate::text;

verus! {

/// SDK configuration.
#[derive(Debug, Clone)]
pub struct Client {
    pub endpoint: String,
    pub token: String,
    pub host_id: String,
    pub service: String,
    pub environment: String,
}

/// What a `Client` says.
#[verifier::ext_equal]
pub struct ClientView {
    pub endpoint: Seq<char>,
    pub token: Seq<char>,
    pub host_id: Seq<char>,
    pub service: Seq<char>,
    pub environment: Seq<char>,
}

impl View for Client {
    type V = ClientView;

    open spec fn view(&self) -> ClientView {
        ClientView {
            endpoint: self.endpoint@,
            token: self.token@,
            host_id: self.host_id@,
            service: self.service@,
            environment: self.environment@,
        }
    }
}

/// What the environment says of the client: the WATCHTOWER_* family, and the
/// host's name.
pub struct Environment {
    pub endpoint: Option<String>,
    pub token: Option<String>,
    pub host_id: Option<String>,
    pub hostname: Option<String>,
    pub service: Option<String>,
    pub environment: Option<String>,
}

/// A text, or another when there is none.
pub open spec fn or_else(o: Option<String>, default: Seq<char>) -> Seq<char> {
    match o {
        Some(s) => s@,
        None => default,
    }
}

/// The client of an environment: none without an endpoint and a token.
pub open spec fn client_of(env: Environment) -> Option<ClientView> {
    match (env.endpoint, env.token) {
        (Some(endpoint), Some(token)) => Some(
            ClientView {
                endpoint: endpoint@,
                token: token@,
                host_id: or_else(env.host_id, or_else(env.hostname, "host"@)),
                service: or_else(env.service, "app"@),
                environment: or_else(env.environment, "prod"@),
            },
        ),
        _ => None,
    }
}

/// A request to post.
#[derive(Debug)]
pub struct Request {
    pub url: String,
    pub authorization: String,
    pub body: String,
}

/// What a `Request` says.
#[verifier::ext_equal]
pub struct RequestView {
    pub url: Seq<char>,
    pub authorization: Seq<char>,
    pub body: Seq<char>,
}

impl View for Request {
    type V = RequestView;

    open spec fn view(&self) -> RequestView {
        RequestView {
            url: self.url@,
            authorization: self.authorization@,
            body: self.body@,
        }
    }
}

/// What a stack frame says: file, line and function.
pub open spec fn frame_views(frames: Seq<(String, u32, String)>) -> Seq<
    (Seq<char>, u32, Seq<char>),
> {
    frames.map_values(|f: (String, u32, String)| (f.0@, f.1, f.2@))
}

/// A stack frame as JSON, its members in the order of their names.
pub open spec fn frame_view(f: (Seq<char>, u32, Seq<char>)) -> JsonView {
    JsonView::Object(
        seq![
            ("file"@, JsonView::Text(f.0)),
            ("function"@, JsonView::Text(f.2)),
            ("line"@, JsonView::Number(f.1 as int)),
        ],
    )
}

/// An exception as JSON, its members in the order of their names.
pub open spec fn exception_view(
    level: Seq<char>,
    kind: Seq<char>,
    message: Seq<char>,
    frames: Seq<(Seq<char>, u32, Seq<char>)>,
) -> JsonView {
    JsonView::Object(
        seq![
            (
                "frames"@,
                JsonView::List(
                    frames.map_values(|f: (Seq<char>, u32, Seq<char>)| frame_view(f)),
                ),
            ),
            ("level"@, JsonView::Text(level)),
            ("message"@, JsonView::Text(message)),
            ("type"@, JsonView::Text(kind)),
        ],
    )
}

/// The report of an exception as JSON, its members in the order of their
/// names.
pub open spec fn report_view(
    c: ClientView,
    level: Seq<char>,
    kind: Seq<char>,
    message: Seq<char>,
    frames: Seq<(Seq<char>, u32, Seq<char>)>,
) -> JsonView {
    JsonView::Object(
        seq![
            ("environment"@, JsonView::Text(c.environment)),
            ("exception"@, exception_view(level, kind, message, frames)),
            ("host_id"@, JsonView::Text(c.host_id)),
            ("service"@, JsonView::Text(c.service)),
        ],
    )
}

/// The request that reports an exception.
pub open spec fn report(
    c: ClientView,
    level: Seq<char>,
    kind: Seq<char>,
    message: Seq<char>,
    frames: Seq<(Seq<char>, u32, Seq<char>)>,
) -> RequestView {
    RequestView {
        url: text::trim_end_char(c.endpoint, '/') + "/v1/errors"@,
        authorization: "Bearer "@ + c.token,
        body: json::rendered(report_view(c, level, kind, message, frames)),
    }
}

/// What to do after an attempt to post.
#[derive(Debug, Clone, Copy, PartialEq, Eq, Structural)]
pub enum NextStep {
    /// The report was taken.
    Delivered,
    /// Try again after a pause of some milliseconds.
    RetryAfter(u64),
    /// The report is given up.
    GiveUp,
}

/// What to do after the attempt of a number (the first is none), given the
/// status of the response, if there was one: one retry, and only a 2xx
/// response is a success.
pub open spec fn step(attempt: int, status: Option<u16>) -> NextStep {
    if status matches Some(s) && 200 <= s < 300 {
        NextStep::Delivered
    } else if attempt == 0 {
        NextStep::RetryAfter(200)
    } else {
        NextStep::GiveUp
    }
}

/// A report is posted twice at most, and succeeds exactly when a response
/// said so: the first, or the second where the first did not.
pub proof fn law_at_most_one_retry(first: Option<u16>, second: Option<u16>)
    ensures
        !(step(0, first) is GiveUp),
        !(step(1, second) is RetryAfter),
        step(0, first) is Delivered <==> (first matches Some(s) && 200 <= s < 300),
        step(1, second) is Delivered <==> (second matches Some(s) && 200 <= s < 300),
{
}

fn frames_json(frames: &[(String, u32, String)]) -> (r: Json)
    ensures
        r@ == JsonView::List(
            frame_views(frames@).map_values(|f: (Seq<char>, u32, Seq<char>)| frame_view(f)),
        ),
{
    let mut items: Vec<Json> = Vec::new();
    let mut i: usize = 0;
    while i < frames.len()
        invariant
            i <= frames@.len(),
            items@.len() == i,
            forall|k: int|
                0 <= k < i ==> (#[trigger] items@[k])@ == frame_view(
                    (frames@[k].0@, frames@[k].1, frames@[k].2@),
                ),
        decreases frames@.len() - i,
    {
        let f = &frames[i];
        let mut m: Vec<(String, Json)> = Vec::new();
        json::add_member(&mut m, "file", json::text_json(f.0.as_str()));
        json::add_member(&mut m, "function", json::text_json(f.2.as_str()));
        json::add_member(&mut m, "line", Json::Number(f.1 as i64));
        assert(json::members(m@) =~= frame_view((f.0@, f.1, f.2@))->Object_0);
        items.push(json::object_of(m));
        i = i + 1;
    }
    let r = Json::List(items);
    assert(r@->List_0 =~= frame_views(frames@).map_values(
        |f: (Seq<char>, u32, Seq<char>)| frame_view(f),
    ));
    r
}

fn text_else(o: Option<String>, default: String) -> (r: String)
    ensures
        r@ == or_else(o, default@),
{
    match o {
        Some(s) => s,
        None => default,
    }
}

impl Client {
    /// Build from the WATCHTOWER_ENDPOINT / WATCHTOWER_TOKEN /
    /// WATCHTOWER_HOST_ID / WATCHTOWER_SERVICE / WATCHTOWER_ENVIRONMENT
    /// env vars (host_id defaults to the OS hostname, service to "app",
    /// environment to "prod").
    pub fn from_env(env: Environment) -> (r: Option<Client>)
        ensures
            match r {
                Some(c) => client_of(env) == Some(c@),
                None => client_of(env) is None,
            },
    {
        let ghost e = env;
        let endpoint = env.endpoint?;
        let token = env.token?;
        let fallback = text_else(env.hostname, text::owned("host"));
        let c = Client {
            endpoint,
            token,
            host_id: text_else(env.host_id, fallback),
            service: text_else(env.service, text::owned("app")),
            environment: text_else(env.environment, text::owned("prod")),
        };
        assert(client_of(e)->0 =~= c@);
        Some(c)
    }

    /// The request that reports an exception. Frames: (file, line, function),
    /// innermost first.
    pub fn capture(
        &self,
        level: &str,
        kind: &str,
        message: &str,
        frames: &[(String, u32, String)],
    ) -> (r: Request)
        ensures
            r@ == report(self@, level@, kind@, message@, frame_views(frames@)),
    {
        let ghost fv = frame_views(frames@);
        let mut e: Vec<(String, Json)> = Vec::new();
        json::add_member(&mut e, "frames", frames_json(frames));
        json::add_member(&mut e, "level", json::text_json(level));
        json::add_member(&mut e, "message", json::text_json(message));
        json::add_member(&mut e, "type", json::text_json(kind));
        assert(json::members(e@) =~= exception_view(level@, kind@, message@, fv)->Object_0);
        let mut m: Vec<(String, Json)> = Vec::new();
        json::add_member(&mut m, "environment", json::text_json(self.environment.as_str()));
        json::add_member(&mut m, "exception", json::object_of(e));
        json::add_member(&mut m, "host_id", json::text_json(self.host_id.as_str()));
        json::add_member(&mut m, "service", json::text_json(self.service.as_str()));
        assert(json::members(m@) =~= report_view(self@, level@, kind@, message@, fv)->Object_0);
        Request {
            url: text::trimmed_end_of(self.endpoint.as_str(), '/').concat("/v1/errors"),
            authorization: text::owned("Bearer ").concat(self.token.as_str()),
            body: json::object_of(m).render(),
        }
    }

    /// Convenience for panics: the request that reports a formatted panic
    /// message (type "Panic", level "fatal").
    pub fn capture_panic(&self, message: &str) -> (r: Request)
        ensures
            r@ == report(self@, "fatal"@, "Panic"@, message@, seq![]),
    {
        let none: Vec<(String, u32, String)> = Vec::new();
        assert(frame_views(none@) =~= seq![]);
        self.capture("fatal", "Panic", message, none.as_slice())
    }

    /// What to do after an attempt to post a request.
    pub fn after_attempt(attempt: u32, status: Option<u16>) -> (r: NextStep)
        ensures
            r == step(attempt as int, status),
    {
        let taken = match status {
            Some(s) => s >= 200 && s < 300,
            None => false,
        };
        if taken {
            NextStep::Delivered
        } else if attempt == 0 {
            NextStep::RetryAfter(200)
        } else {
            NextStep::GiveUp
        }
    }
}

/// A client needs an endpoint and a token; what else is missing has a default,
/// and the host's name stands in for its id.
pub proof fn law_clients_are_configured(env: Environment)
    ensures
        client_of(env) is Some <==> env.endpoint is Some && env.token is Some,
        client_of(env) matches Some(c) ==> {
            &&& c.endpoint == env.endpoint->0@ && c.token == env.token->0@
            &&& env.host_id matches Some(h) ==> c.host_id == h@
            &&& env.host_id is None ==> (env.hostname matches Some(h) ==> c.host_id == h@)
            &&& env.host_id is None && env.hostname is None ==> c.host_id == "host"@
            &&& env.service matches Some(s) ==> c.service == s@
            &&& env.service is None ==> c.service == "app"@
            &&& env.environment matches Some(s) ==> c.environment == s@
            &&& env.environment is None ==> c.environment == "prod"@
        },
{
}

/// A report goes to the endpoint's own path, with the token, and tells who
/// failed, how badly, with what and where: every frame in order.
pub proof fn law_reports_are_whole(
    c: ClientView,
    level: Seq<char>,
    kind: Seq<char>,
    message: Seq<char>,
    frames: Seq<(Seq<char>, u32, Seq<char>)>,
)
    requires
        c.endpoint.len() > 0,
        c.endpoint.last() != '/',
    ensures
        ({
            let r = report(c, level, kind, message, frames);
            let slashed = report(
                ClientView { endpoint: c.endpoint.push('/'), ..c },
                level,
                kind,
                message,
                frames,
            );
            let body = JsonView::Object(
                seq![
                    ("environment"@, JsonView::Text(c.environment)),
                    (
                        "exception"@,
                        JsonView::Object(
                            seq![
                                (
                                    "frames"@,
                                    JsonView::List(
                                        Seq::new(
                                            frames.len(),
                                            |i: int|
                                                JsonView::Object(
                                                    seq![
                                                        ("file"@, JsonView::Text(frames[i].0)),
                                                        ("function"@, JsonView::Text(frames[i].2)),
                                                        (
                                                            "line"@,
                                                            JsonView::Number(frames[i].1 as int),
                                                        ),
                                                    ],
                                                ),
                                        ),
                                    ),
                                ),
                                ("level"@, JsonView::Text(level)),
                                ("message"@, JsonView::Text(message)),
                                ("type"@, JsonView::Text(kind)),
                            ],
                        ),
                    ),
                    ("host_id"@, JsonView::Text(c.host_id)),
                    ("service"@, JsonView::Text(c.service)),
                ],
            );
            &&& r.url == c.endpoint + "/v1/errors"@
            &&& slashed.url == r.url
            &&& r.authorization == "Bearer "@ + c.token
            &&& r.body == json::rendered(body)
        }),
{
    let list = Seq::new(
        frames.len(),
        |i: int|
            JsonView::Object(
                seq![
                    ("file"@, JsonView::Text(frames[i].0)),
                    ("function"@, JsonView::Text(frames[i].2)),
                    ("line"@, JsonView::Number(frames[i].1 as int)),
                ],
            ),
    );
    assert(list =~= frames.map_values(|f: (Seq<char>, u32, Seq<char>)| frame_view(f)));
    let e = c.endpoint.push('/');
    assert(e.drop_last() =~= c.endpoint);
    assert(text::trim_end_char(e, '/') == text::trim_end_char(c.endpoint, '/'));
}

/// A report that was not taken is tried again once, after a fifth of a second.
pub proof fn law_failed_reports_are_tried_again(status: Option<u16>, attempt: int)
    requires
        !(status matches Some(s) && 200 <= s < 300),
    ensures
        step(0, status) == NextStep::RetryAfter(200),
        attempt > 0 ==> step(attempt, status) is GiveUp,
        forall|s: u16| 200 <= s < 300 ==> #[trigger] step(attempt, Some(s)) is Delivered,
{
}

} // verus!
