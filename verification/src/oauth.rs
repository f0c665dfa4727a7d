//! The decisions of the OAuth flow: reading the browser's redirect request,
//! the redirect and callback addresses, the metadata discovery candidates,
//! and what a failed token request means.
use crate::config::{clone_strings, ServerConfig};
use crate::text::{
    chars_of, debug_quoted, debug_str, concat2, concat3, contains_seq, contains_str, decimal, decimal_string, str_eq,
    word_spans, words, is_white_space, lemma_next_word,
};
use vstd::prelude::*;
use vstd::string::*;

verus! {

// ---------------------------------------------------------------------------
// The callback request
// ---------------------------------------------------------------------------

/// The path of an HTTP request line: its second word when the first is
/// `GET`.
pub open spec fn request_path_spec(line: Seq<char>) -> Option<Seq<char>> {
    let ws = words(line);
    if ws.len() >= 2 && ws[0] == "GET"@ {
        Some(ws[1])
    } else {
        None
    }
}

/// Extracts the request path from an HTTP request line ("GET /cb?a=b HTTP/1.1").
pub fn request_path(line: &str) -> (r: Option<&str>)
    ensures
        match r {
            Some(p) => request_path_spec(line@) == Some(p@),
            None => request_path_spec(line@) is None,
        },
{
    let spans = word_spans(line);
    if spans.len() < 2 {
        return None;
    }
    let (a0, b0) = spans[0];
    let (a1, b1) = spans[1];
    let method = line.substring_char(a0, b0);
    if str_eq(method, "GET") {
        Some(line.substring_char(a1, b1))
    } else {
        None
    }
}

/// The path of a request line `GET <path> HTTP/1.1` is `<path>`, for any
/// non-empty path without white space: the line is split at white space
/// only.
pub proof fn request_path_law(p: Seq<char>)
    requires
        p.len() > 0,
        forall|k: int| 0 <= k < p.len() ==> !is_white_space(#[trigger] p[k]),
    ensures
        request_path_spec("GET "@ + p + " HTTP/1.1"@) == Some(p),
{
    reveal_strlit("GET ");
    reveal_strlit(" HTTP/1.1");
    reveal_strlit("GET");
    let line = "GET "@ + p + " HTTP/1.1"@;
    let n: int = p.len() as int;
    assert(line.len() == n + 13);
    assert(line[3] == ' ');
    assert(is_white_space(line[3]));
    assert forall|k: int| 0 <= k < 3 implies !is_white_space(#[trigger] line[k]) by {
        assert(line[k] == "GET "@[k]);
    }
    lemma_next_word(line, 0, 3);
    assert forall|k: int| 4 <= k < 4 + n implies !is_white_space(#[trigger] line[k]) by {
        assert(line[k] == p[k - 4]);
    }
    assert(line[4 + n] == ' ');
    lemma_next_word(line, 4, 4 + n);
    assert(line.subrange(0, 3) =~= "GET"@);
    assert(line.subrange(4, 4 + n) =~= p);
    let ws = words(line);
    assert(ws[0] == "GET"@);
    assert(ws[1] == p);
}

/// The first position of a CR LF pair in `buf`, or -1.
pub open spec fn find_crlf(buf: Seq<u8>, from: int) -> int
    decreases buf.len() - from,
{
    if from < 0 || from + 1 >= buf.len() {
        -1
    } else if buf[from] == 13 && buf[from + 1] == 10 {
        from
    } else {
        find_crlf(buf, from + 1)
    }
}

/// Largest request head read while waiting for the end of its first line.
pub const MAX_REQUEST_BYTES: usize = 8192;

/// What the bytes received so far say about the request line.
#[derive(PartialEq, Eq, Structural, Clone, Copy, Debug)]
pub enum RequestScan {
    /// The first line ends before this position.
    Line(usize),
    /// No line end yet, and more than `MAX_REQUEST_BYTES` arrived.
    TooLarge,
    /// No line end yet; read more.
    Incomplete,
}

/// Looks for the end of the request line in the bytes received so far.
pub fn scan_request(buf: &[u8]) -> (r: RequestScan)
    ensures
        find_crlf(buf@, 0) >= 0 ==> r == RequestScan::Line(find_crlf(buf@, 0) as usize),
        find_crlf(buf@, 0) < 0 && buf@.len() > MAX_REQUEST_BYTES ==> r == RequestScan::TooLarge,
        find_crlf(buf@, 0) < 0 && buf@.len() <= MAX_REQUEST_BYTES ==> r == RequestScan::Incomplete,
{
    let mut k: usize = 0;
    while k < buf.len() && k + 1 < buf.len()
        invariant
            k <= buf@.len(),
            find_crlf(buf@, 0) == find_crlf(buf@, k as int),
        decreases buf.len() - k,
    {
        if buf[k] == 13 && buf[k + 1] == 10 {
            return RequestScan::Line(k);
        }
        k = k + 1;
    }
    if buf.len() > MAX_REQUEST_BYTES {
        RequestScan::TooLarge
    } else {
        RequestScan::Incomplete
    }
}

/// The full redirect URL the browser was sent to, from its request path.
pub fn callback_url(path: &str) -> (u: String)
    ensures
        u@ == "http://127.0.0.1"@ + path@,
{
    concat2("http://127.0.0.1", path)
}

/// The page shown in the browser after the redirect.
pub const CALLBACK_BODY: &'static str =
    "<html><body><h3>mcp-multiplexer</h3><p>Authorization complete - you can close this tab.</p></body></html>";

/// The HTTP response sent to the browser: a 200 with the closing page.
pub fn callback_response() -> (r: String)
    ensures
        r@ == "HTTP/1.1 200 OK\r\nContent-Type: text/html\r\nContent-Length: "@ + decimal(
            CALLBACK_BODY.len() as nat,
        ) + "\r\nConnection: close\r\n\r\n"@ + CALLBACK_BODY@,
{
    let len = decimal_string(CALLBACK_BODY.len() as u64);
    let head = concat3(
        "HTTP/1.1 200 OK\r\nContent-Type: text/html\r\nContent-Length: ",
        len.as_str(),
        "\r\nConnection: close\r\n\r\n",
    );
    concat2(head.as_str(), CALLBACK_BODY)
}

/// The redirect URI registered for a callback listener on `port`.
pub fn redirect_uri(port: u16) -> (u: String)
    ensures
        u@ == "http://127.0.0.1:"@ + decimal(port as nat) + "/callback"@,
{
    let p = decimal_string(port as u64);
    concat3("http://127.0.0.1:", p.as_str(), "/callback")
}

/// What a request to start authorization does.
#[derive(PartialEq, Eq, Structural, Clone, Copy, Debug)]
pub enum FlowStart {
    /// An authorization is already in flight: report its URL again.
    ReReport,
    /// Start a new authorization.
    Start,
}

/// Starting authorization while one is in flight reports the open one again
/// rather than starting another.
pub fn flow_start(session_open: bool) -> (r: FlowStart)
    ensures
        session_open ==> r == FlowStart::ReReport,
        !session_open ==> r == FlowStart::Start,
{
    if session_open {
        FlowStart::ReReport
    } else {
        FlowStart::Start
    }
}

/// Why a pasted redirect URL did not complete authorization.
pub enum CompletionError {
    /// No authorization is in flight.
    NotInProgress,
    /// The provider or the flow rejected the URL, for `reason`.
    Rejected { reason: String },
}

impl CompletionError {
    /// The message the error carries.
    pub open spec fn message_spec(&self) -> Seq<char> {
        match self {
            CompletionError::NotInProgress => "no authorization in progress \u{2014} call authorize_server without pasted_url first"@,
            CompletionError::Rejected { reason } => "redirect URL rejected: "@ + reason@
                + " \u{2014} if this persists, restart the flow via authorize_server"@,
        }
    }

    /// The error's message.
    pub fn message(&self) -> (m: String)
        ensures
            m@ == self.message_spec(),
    {
        match self {
            CompletionError::NotInProgress => "no authorization in progress \u{2014} call authorize_server without pasted_url first".to_string(),
            CompletionError::Rejected { reason } => concat3(
                "redirect URL rejected: ",
                reason.as_str(),
                " \u{2014} if this persists, restart the flow via authorize_server",
            ),
        }
    }
}

/// A pasted redirect URL can complete authorization only while one is in
/// flight.
pub fn check_completion(session_open: bool) -> (r: Result<(), CompletionError>)
    ensures
        session_open <==> r is Ok,
        r is Err ==> r == Err::<(), CompletionError>(CompletionError::NotInProgress),
{
    if session_open {
        Ok(())
    } else {
        Err(CompletionError::NotInProgress)
    }
}

/// The port the callback listener asks for: the configured one, or 0 for an
/// ephemeral port.
pub fn callback_port(cfg: &ServerConfig) -> (p: u16)
    ensures
        p == match cfg.oauth_redirect_port {
            Some(q) => q,
            None => 0u16,
        },
{
    match cfg.oauth_redirect_port {
        Some(q) => q,
        None => 0,
    }
}

/// The name the client registers under.
pub const CLIENT_NAME: &'static str = "mcp-multiplexer";

/// The authorization request to start for a server.
pub struct RequestPlan {
    /// Where the browser is sent back to.
    pub redirect_uri: String,
    /// The name the client registers under.
    pub client_name: String,
    /// The scopes to ask for; `None` leaves them to the server.
    pub scopes: Option<Vec<String>>,
    /// A pre-registered client id; `None` registers the client dynamically.
    pub client_id: Option<String>,
}

/// The authorization request for a server whose callback listener got
/// `port`: the configured client id wins over `stored_client_id` (the one
/// kept from an earlier registration), and an empty scope list asks for the
/// server's defaults.
pub fn request_plan(cfg: &ServerConfig, stored_client_id: Option<String>, port: u16) -> (r:
    RequestPlan)
    ensures
        r.redirect_uri@ == "http://127.0.0.1:"@ + decimal(port as nat) + "/callback"@,
        r.client_name@ == CLIENT_NAME@,
        cfg.oauth_scopes@.len() == 0 ==> r.scopes is None,
        cfg.oauth_scopes@.len() > 0 ==> (r.scopes matches Some(v) && v@ == cfg.oauth_scopes@),
        r.client_id == match cfg.oauth_client_id {
            Some(c) => Some(c),
            None => stored_client_id,
        },
{
    let scopes = if cfg.oauth_scopes.len() == 0 {
        None
    } else {
        Some(clone_strings(&cfg.oauth_scopes))
    };
    let client_id = match &cfg.oauth_client_id {
        Some(c) => Some(c.clone()),
        None => stored_client_id,
    };
    RequestPlan {
        redirect_uri: redirect_uri(port),
        client_name: CLIENT_NAME.to_string(),
        scopes,
        client_id,
    }
}

// ---------------------------------------------------------------------------
// Metadata discovery
// ---------------------------------------------------------------------------

/// What `reqwest::Url` parsing gives for `s`: the URL's path and its
/// serialization, or the parser's error message.
pub uninterp spec fn url_parse(s: Seq<char>) -> Result<(Seq<char>, Seq<char>), Seq<char>>;

/// Calls `<reqwest::Url as FromStr>::from_str`, then `Url::path` and
/// `Url::as_str` of the result, or `ToString` of the parse error. The
/// contract claims that the outcome is a function of `s` alone (named
/// `url_parse`); the WHATWG parsing rules are left unstated.
#[verifier::external_body]
fn parse_url(s: &str) -> (r: Result<(String, String), String>)
    ensures
        match r {
            Ok((p, t)) => url_parse(s@) == Ok::<(Seq<char>, Seq<char>), Seq<char>>((p@, t@)),
            Err(m) => url_parse(s@) == Err::<(Seq<char>, Seq<char>), Seq<char>>(m@),
        },
{
    match s.parse::<reqwest::Url>() {
        Ok(u) => Ok((u.path().to_string(), u.as_str().to_string())),
        Err(e) => Err(e.to_string()),
    }
}

/// The URL that parsing `base`, clearing its query and fragment and setting
/// its path to `path` gives, serialized.
pub uninterp spec fn candidate_url(base: Seq<char>, path: Seq<char>) -> Seq<char>;

/// Parses `base` as a `reqwest::Url`, calls `Url::set_query(None)`,
/// `Url::set_fragment(None)` and `Url::set_path(path)`, and serializes the
/// result with `Url::as_str`. The contract claims that the result is a
/// function of `base` and `path` (named `candidate_url`); the URL rules are
/// left unstated.
#[verifier::external_body]
fn compose_url(base: &str, path: &str) -> (r: String)
    requires
        url_parse(base@) is Ok,
    ensures
        r@ == candidate_url(base@, path@),
{
    match base.parse::<reqwest::Url>() {
        Ok(mut u) => {
            u.set_query(None);
            u.set_fragment(None);
            u.set_path(path);
            u.as_str().to_string()
        },
        Err(_) => String::new(),
    }
}

/// `s` without its leading `/`s.
pub open spec fn strip_leading_slashes(s: Seq<char>) -> Seq<char>
    decreases s.len(),
{
    if s.len() > 0 && s[0] == '/' {
        strip_leading_slashes(s.drop_first())
    } else {
        s
    }
}

/// `s` without its trailing `/`s.
pub open spec fn strip_trailing_slashes(s: Seq<char>) -> Seq<char>
    decreases s.len(),
{
    if s.len() > 0 && s.last() == '/' {
        strip_trailing_slashes(s.drop_last())
    } else {
        s
    }
}

/// `s` without leading and trailing `/`s.
pub open spec fn trim_slashes(s: Seq<char>) -> Seq<char> {
    strip_trailing_slashes(strip_leading_slashes(s))
}

/// The well-known paths tried for authorization-server metadata, for a
/// server path trimmed of slashes to `t`; the same order as rmcp's own
/// discovery.
pub open spec fn discovery_paths_spec(t: Seq<char>) -> Seq<Seq<char>> {
    if t.len() == 0 {
        seq!["/.well-known/oauth-authorization-server"@, "/.well-known/openid-configuration"@]
    } else {
        seq![
            "/.well-known/oauth-authorization-server/"@ + t,
            "/.well-known/openid-configuration/"@ + t,
            "/"@ + t + "/.well-known/openid-configuration"@,
            "/.well-known/oauth-authorization-server"@,
        ]
    }
}

/// `s` without leading and trailing `/`s.
pub fn trim_slashes_str(s: &str) -> (r: &str)
    ensures
        r@ == trim_slashes(s@),
{
    let cs = chars_of(s);
    let n = cs.len();
    let mut a: usize = 0;
    assert(s@.subrange(0, n as int) =~= s@);
    while a < n && cs[a] == '/'
        invariant
            cs@ == s@,
            n == cs.len(),
            a <= n,
            strip_leading_slashes(s@) == strip_leading_slashes(s@.subrange(a as int, n as int)),
        decreases n - a,
    {
        assert(s@.subrange(a as int, n as int).drop_first() =~= s@.subrange(a + 1, n as int));
        a = a + 1;
    }
    let ghost lead = s@.subrange(a as int, n as int);
    assert(strip_leading_slashes(s@) == lead);
    let mut b: usize = n;
    while b > a && cs[b - 1] == '/'
        invariant
            cs@ == s@,
            n == cs.len(),
            a <= b <= n,
            lead == s@.subrange(a as int, n as int),
            strip_trailing_slashes(lead) == strip_trailing_slashes(s@.subrange(a as int, b as int)),
        decreases b - a,
    {
        assert(s@.subrange(a as int, b as int).drop_last() =~= s@.subrange(a as int, b - 1));
        b = b - 1;
    }
    s.substring_char(a, b)
}

/// The well-known metadata paths for a server path `path`, in the order
/// they are tried: the path is trimmed of slashes first.
pub fn discovery_candidates(path: &str) -> (r: Vec<String>)
    ensures
        r@.map_values(|p: String| p@) == discovery_paths_spec(trim_slashes(path@)),
{
    let t = trim_slashes_str(path);
    let mut ps: Vec<String> = Vec::new();
    if t.unicode_len() == 0 {
        ps.push("/.well-known/oauth-authorization-server".to_string());
        ps.push("/.well-known/openid-configuration".to_string());
    } else {
        ps.push(concat2("/.well-known/oauth-authorization-server/", t));
        ps.push(concat2("/.well-known/openid-configuration/", t));
        ps.push(concat3("/", t, "/.well-known/openid-configuration"));
        ps.push("/.well-known/oauth-authorization-server".to_string());
    }
    assert(ps@.map_values(|p: String| p@) =~= discovery_paths_spec(trim_slashes(path@)));
    ps
}

/// Why metadata discovery fails.
pub enum DiscoveryError {
    /// The server URL does not parse, for `reason`.
    BadUrl { url: String, reason: String },
    /// No candidate served authorization-server metadata; `url` is the
    /// server URL as parsed.
    NoMetadata { url: String },
}

impl DiscoveryError {
    /// The message the error carries.
    pub open spec fn message_spec(&self) -> Seq<char> {
        match self {
            DiscoveryError::BadUrl { url, reason } => "bad server url "@ + debug_str(url@) + ": "@
                + reason@,
            DiscoveryError::NoMetadata { url } => "oauth: no authorization server metadata found for "@
                + url@,
        }
    }

    /// The error's message.
    pub fn message(&self) -> (m: String)
        ensures
            m@ == self.message_spec(),
    {
        match self {
            DiscoveryError::BadUrl { url, reason } => {
                let q = debug_quoted(url.as_str());
                let head = concat3("bad server url ", q.as_str(), ": ");
                concat2(head.as_str(), reason.as_str())
            },
            DiscoveryError::NoMetadata { url } => concat2(
                "oauth: no authorization server metadata found for ",
                url.as_str(),
            ),
        }
    }
}

/// The metadata URLs to try for a server, in order, with the server URL as
/// parsed.
pub struct Discovery {
    /// The server URL, serialized as parsed.
    pub base: String,
    /// The candidate metadata URLs.
    pub urls: Vec<String>,
}

/// The metadata URLs tried for the server at `base`, in order: `base` with
/// its query and fragment cleared and its path set to each candidate of its
/// own path.
pub fn discovery_urls(base: &str) -> (r: Result<Discovery, DiscoveryError>)
    ensures
        match r {
            Ok(d) => url_parse(base@) matches Ok((p, t)) && d.base@ == t && d.urls@.map_values(
                |u: String| u@,
            ) == discovery_paths_spec(trim_slashes(p)).map_values(|q: Seq<char>| candidate_url(base@, q)),
            Err(e) => url_parse(base@) matches Err(m) && (e matches DiscoveryError::BadUrl { url, reason }
                && url@ == base@ && reason@ == m),
        },
{
    let (path, text) = match parse_url(base) {
        Ok(pt) => pt,
        Err(m) => {
            return Err(DiscoveryError::BadUrl { url: base.to_string(), reason: m });
        },
    };
    let ps = discovery_candidates(path.as_str());
    let ghost want = discovery_paths_spec(trim_slashes(path@));
    let mut urls: Vec<String> = Vec::new();
    let mut i: usize = 0;
    while i < ps.len()
        invariant
            url_parse(base@) is Ok,
            i <= ps@.len(),
            ps@.map_values(|p: String| p@) == want,
            urls@.len() == i,
            forall|k: int| 0 <= k < i ==> (#[trigger] urls@[k])@ == candidate_url(base@, want[k]),
        decreases ps.len() - i,
    {
        assert(ps@[i as int]@ == want[i as int]);
        urls.push(compose_url(base, ps[i].as_str()));
        i = i + 1;
    }
    assert(urls@.map_values(|u: String| u@) =~= want.map_values(|q: Seq<char>| candidate_url(base@, q)));
    Ok(Discovery { base: text, urls })
}

/// What fetching one candidate metadata URL gave.
#[derive(PartialEq, Eq, Structural, Clone, Copy, Debug)]
pub enum Fetched {
    /// The request failed before any answer.
    Unreachable,
    /// The server answered with `status`; `metadata` tells whether the body
    /// was read and held authorization-server metadata.
    Answered { status: u16, metadata: bool },
}

/// What to do next while discovering metadata.
#[derive(PartialEq, Eq, Structural, Clone, Copy, Debug)]
pub enum DiscoveryAction {
    /// Fetch candidate number `i`.
    Try(usize),
    /// Use the metadata just fetched.
    Accept,
    /// No candidate served metadata.
    GiveUp,
}

/// A fetch that discovery accepts: a 200 answer whose body is metadata.
pub open spec fn accepted(f: Fetched) -> bool {
    f matches Fetched::Answered { status, metadata } && status == 200 && metadata
}

/// Only a 200 answer's body is read for metadata.
pub fn reads_body(status: u16) -> (r: bool)
    ensures
        r == (status == 200),
{
    status == 200
}

/// Discovery starts with the first of `total` candidates, if any.
pub fn discovery_first(total: usize) -> (a: DiscoveryAction)
    ensures
        total > 0 ==> a == DiscoveryAction::Try(0),
        total == 0 ==> a == DiscoveryAction::GiveUp,
{
    if total > 0 {
        DiscoveryAction::Try(0)
    } else {
        DiscoveryAction::GiveUp
    }
}

/// After fetching candidate `tried` of `total`: accept it when it served
/// metadata, else try the next one, else give up. Candidates are tried in
/// order and each at most once, and the first that serves metadata wins.
pub fn discovery_step(tried: usize, total: usize, fetched: Fetched) -> (a: DiscoveryAction)
    requires
        tried < total,
    ensures
        accepted(fetched) ==> a == DiscoveryAction::Accept,
        !accepted(fetched) && tried + 1 < total ==> a == DiscoveryAction::Try((tried + 1) as usize),
        !accepted(fetched) && tried + 1 >= total ==> a == DiscoveryAction::GiveUp,
{
    let ok = match fetched {
        Fetched::Answered { status, metadata } => status == 200 && metadata,
        Fetched::Unreachable => false,
    };
    if ok {
        DiscoveryAction::Accept
    } else if tried + 1 < total {
        DiscoveryAction::Try(tried + 1)
    } else {
        DiscoveryAction::GiveUp
    }
}

// ---------------------------------------------------------------------------
// Token request failures
// ---------------------------------------------------------------------------

/// A failed token request, as far as the flow's decisions read it.
pub enum AuthFailure {
    /// The user must authorize first.
    AuthorizationRequired,
    /// A token refresh failed, with the provider's message.
    TokenRefreshFailed(String),
    /// A token refresh was rejected, with the provider's message.
    TokenRefreshRejected(String),
    /// The discovered issuer is not the server's host.
    AuthorizationServerMismatch,
    /// Any other failure, with its message.
    Other(String),
}

/// The provider has forgotten the stored client registration: a refresh that
/// failed or was rejected with `invalid_client` in its message.
pub open spec fn stale_client(e: AuthFailure) -> bool {
    match e {
        AuthFailure::TokenRefreshFailed(m) => contains_seq(m@, "invalid_client"@),
        AuthFailure::TokenRefreshRejected(m) => contains_seq(m@, "invalid_client"@),
        _ => false,
    }
}

/// Whether the failure means the stored client registration is gone, so that
/// the credentials should be dropped and the client registered anew.
pub fn is_stale_client_error(e: &AuthFailure) -> (r: bool)
    ensures
        r == stale_client(*e),
{
    match e {
        AuthFailure::TokenRefreshFailed(m) => contains_str(m.as_str(), "invalid_client"),
        AuthFailure::TokenRefreshRejected(m) => contains_str(m.as_str(), "invalid_client"),
        _ => false,
    }
}

/// What to do with the outcome of an access-token request.
pub enum TokenDecision {
    /// Use this token.
    Use(String),
    /// The user must authorize.
    Authorize,
    /// Clear the stored credentials, then the user must authorize.
    ClearAndAuthorize,
    /// Report the failure.
    Fail(AuthFailure),
}

/// Decides on the outcome of an access-token request: a token is used; a
/// request for authorization is passed on; a stale client registration is
/// cleared so that the next attempt registers anew; anything else fails.
pub fn token_decision(res: Result<String, AuthFailure>) -> (d: TokenDecision)
    ensures
        match res {
            Ok(t) => d == TokenDecision::Use(t),
            Err(AuthFailure::AuthorizationRequired) => d == TokenDecision::Authorize,
            Err(e) => if stale_client(e) {
                d == TokenDecision::ClearAndAuthorize
            } else {
                d == TokenDecision::Fail(e)
            },
        },
{
    match res {
        Ok(t) => TokenDecision::Use(t),
        Err(AuthFailure::AuthorizationRequired) => TokenDecision::Authorize,
        Err(e) => if is_stale_client_error(&e) {
            TokenDecision::ClearAndAuthorize
        } else {
            TokenDecision::Fail(e)
        },
    }
}

} // verus!
