//! Who may call the API, and on behalf of which host.

use vstd::prelude::*;

use crate::table::Table;
use crate::text;

verus! {

/// Bearer credentials for /v1/* routes: a shared token (any host) plus
/// per-host tokens that pin the presenter to a host.
pub struct Auth {
    pub shared: String,
    pub hosts: Table<String, String>,
}

/// The first host with a token.
pub open spec fn host_of_token(hosts: Seq<(Seq<char>, Seq<char>)>, token: Seq<char>) -> Option<
    Seq<char>,
>
    decreases hosts.len(),
{
    if hosts.len() == 0 {
        None
    } else if hosts[0].1 == token {
        Some(hosts[0].0)
    } else {
        host_of_token(hosts.skip(1), token)
    }
}

/// The host that a token pins its presenter to; none for the shared token.
pub open spec fn pinned_host(auth: Auth, bearer: Seq<char>) -> Option<Seq<char>> {
    if bearer == auth.shared@ {
        None
    } else {
        host_of_token(auth.hosts@, bearer)
    }
}

/// Resolve the presenter's host_id: shared token → None (payload decides);
/// a per-host token → Some(host_id).
pub fn resolve_host_id(auth: &Auth, bearer: &str) -> (r: Option<String>)
    ensures
        text::opt_view(r) == pinned_host(*auth, bearer@),
{
    if text::same(bearer, auth.shared.as_str()) {
        return None;
    }
    let ghost all = auth.hosts@;
    let mut i: usize = 0;
    assert(all.skip(0) =~= all);
    while i < auth.hosts.entries.len()
        invariant
            i <= auth.hosts.entries@.len(),
            all == auth.hosts@,
            bearer@ != auth.shared@,
            host_of_token(all.skip(i as int), bearer@) == host_of_token(all, bearer@),
        decreases auth.hosts.entries@.len() - i,
    {
        assert(all.skip(i as int)[0] == all[i as int]);
        if text::same(auth.hosts.entries[i].1.as_str(), bearer) {
            return Some(auth.hosts.entries[i].0.clone());
        }
        assert(all.skip(i as int).skip(1) =~= all.skip(i + 1));
        i = i + 1;
    }
    None
}

/// Host identity resolved from the bearer token (None = shared token).
#[derive(Clone, Debug)]
pub struct ResolvedHost(pub Option<String>);

/// The token of an Authorization header.
pub open spec fn bearer_in(header: Option<Seq<char>>) -> Option<Seq<char>> {
    match header {
        Some(h) => text::after_prefix(h, "Bearer "@),
        None => None,
    }
}

/// A token that opens the API: it is not empty, and it is the shared one or
/// that of a host.
pub open spec fn opens(auth: Auth, token: Seq<char>) -> bool {
    &&& token.len() > 0
    &&& token == auth.shared@ || host_of_token(auth.hosts@, token) is Some
}

/// The status of a refused request.
pub const UNAUTHORIZED: u16 = 401;

/// Bearer-token gate. Rejects missing, empty, or wrong credentials; otherwise
/// says on behalf of which host the request comes.
pub fn require_token(auth: &Auth, header: Option<&str>) -> (r: Result<ResolvedHost, u16>)
    ensures
        ({
            let token = bearer_in(
                match header {
                    Some(h) => Some(h@),
                    None => None,
                },
            );
            match r {
                Ok(host) => {
                    &&& token matches Some(t) && opens(*auth, t)
                    &&& text::opt_view(host.0) == pinned_host(*auth, token->0)
                },
                Err(status) => {
                    &&& status == UNAUTHORIZED
                    &&& !(token matches Some(t) && opens(*auth, t))
                },
            }
        }),
{
    let token = match header {
        Some(h) => text::strip_prefix(h, "Bearer "),
        None => None,
    };
    match token {
        None => Err(UNAUTHORIZED),
        Some(t) => {
            if text::same(t.as_str(), "") {
                proof {
                    reveal_strlit("");
                }
                return Err(UNAUTHORIZED);
            }
            proof {
                reveal_strlit("");
                assert(t@.len() == 0 ==> t@ =~= ""@);
            }
            let host = resolve_host_id(auth, t.as_str());
            if host.is_some() || text::same(t.as_str(), auth.shared.as_str()) {
                Ok(ResolvedHost(host))
            } else {
                Err(UNAUTHORIZED)
            }
        },
    }
}

/// Whoever presents a host's token, and not the shared one, is that host,
/// whatever else is claimed.
pub proof fn law_host_token_pins_the_host(auth: Auth, token: Seq<char>)
    requires
        token.len() > 0,
        token != auth.shared@,
        host_of_token(auth.hosts@, token) is Some,
    ensures
        opens(auth, token),
        pinned_host(auth, token) == host_of_token(auth.hosts@, token),
        exists|i: int|
            0 <= i < auth.hosts@.len() && #[trigger] auth.hosts@[i] == (
                pinned_host(auth, token)->0,
                token,
            ),
{
    lemma_host_of_token(auth.hosts@, token);
}

proof fn lemma_host_of_token(hosts: Seq<(Seq<char>, Seq<char>)>, token: Seq<char>)
    ensures
        host_of_token(hosts, token) matches Some(h) ==> exists|i: int|
            0 <= i < hosts.len() && #[trigger] hosts[i] == (h, token),
    decreases hosts.len(),
{
    if hosts.len() > 0 && hosts[0].1 != token {
        lemma_host_of_token(hosts.skip(1), token);
        if let Some(h) = host_of_token(hosts, token) {
            let k = choose|k: int|
                0 <= k < hosts.skip(1).len() && #[trigger] hosts.skip(1)[k] == (h, token);
            assert(hosts[k + 1] == (h, token));
        }
    } else if hosts.len() > 0 {
        assert(hosts[0] == (hosts[0].0, token));
    }
}

/// A request is let in exactly when it bears the shared token or the token of
/// a host, and no empty one; the shared token is bound to no host.
pub proof fn law_tokens_let_in(auth: Auth, token: Seq<char>)
    ensures
        opens(auth, token) <==> token.len() > 0 && (token == auth.shared@ || exists|i: int|
            0 <= i < auth.hosts@.len() && (#[trigger] auth.hosts@[i]).1 == token),
        token == auth.shared@ ==> pinned_host(auth, token) is None,
        pinned_host(auth, token) matches Some(h) ==> exists|i: int|
            0 <= i < auth.hosts@.len() && #[trigger] auth.hosts@[i] == (h, token),
{
    lemma_token_found(auth.hosts@, token);
}

proof fn lemma_token_found(hosts: Seq<(Seq<char>, Seq<char>)>, token: Seq<char>)
    ensures
        host_of_token(hosts, token) is Some <==> exists|i: int|
            0 <= i < hosts.len() && (#[trigger] hosts[i]).1 == token,
        host_of_token(hosts, token) matches Some(h) ==> exists|i: int|
            0 <= i < hosts.len() && #[trigger] hosts[i] == (h, token),
    decreases hosts.len(),
{
    if hosts.len() > 0 {
        let t = hosts.skip(1);
        lemma_token_found(t, token);
        if hosts[0].1 == token {
            assert(hosts[0] == (hosts[0].0, token));
        } else {
            if host_of_token(t, token) is Some {
                let h = host_of_token(t, token)->0;
                let i = choose|i: int| 0 <= i < t.len() && #[trigger] t[i] == (h, token);
                assert(hosts[i + 1] == (h, token));
            }
            if exists|i: int| 0 <= i < hosts.len() && (#[trigger] hosts[i]).1 == token {
                let i = choose|i: int| 0 <= i < hosts.len() && (#[trigger] hosts[i]).1 == token;
                assert(t[i - 1].1 == token);
            }
        }
    }
}

/// The token of a header is all that follows "Bearer ".
pub proof fn law_bearer_tokens_are_read(token: Seq<char>, header: Seq<char>)
    ensures
        bearer_in(Some("Bearer "@ + token)) == Some(token),
        bearer_in(Some(header)) is Some <==> "Bearer "@.is_prefix_of(header),
        bearer_in(None) is None,
{
    text::law_prefix_and_rest("Bearer "@, token);
    if text::starts(header, "Bearer "@) {
        assert(header.subrange(0, "Bearer "@.len() as int) == "Bearer "@);
    }
    if "Bearer "@.is_prefix_of(header) {
        assert(header.subrange(0, "Bearer "@.len() as int) =~= "Bearer "@);
    }
}

} // verus!
