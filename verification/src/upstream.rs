//! The decisions about upstream servers: how a server's state is reported,
//! which listed tools enter the index, and the self-healing call policy
//! (one reconnect, re-index and retry after a failed call).
use crate::config::{allowed, ServerConfig};
use crate::names::{lookup, NameMap};
use crate::text::{ascii_lower, concat2, concat3, decimal, decimal_string};
use vstd::prelude::*;

verus! {

// ---------------------------------------------------------------------------
// Status
// ---------------------------------------------------------------------------

/// What `list_servers` reports about a server.
#[derive(PartialEq, Eq, Structural, Clone, Copy, Debug)]
pub enum Status {
    /// No server of that name is configured.
    Unknown,
    /// A client is connected.
    Connected,
    /// The last connection attempt failed.
    Unavailable,
    /// Not connected yet (connections are made lazily).
    Cold,
}

/// A server's status from what is known of it: whether it is configured,
/// whether a client is connected, and whether the last connection attempt
/// failed.
pub fn status_of(known: bool, connected: bool, failed: bool) -> (s: Status)
    ensures
        !known ==> s == Status::Unknown,
        known && connected ==> s == Status::Connected,
        known && !connected && failed ==> s == Status::Unavailable,
        known && !connected && !failed ==> s == Status::Cold,
{
    if !known {
        Status::Unknown
    } else if connected {
        Status::Connected
    } else if failed {
        Status::Unavailable
    } else {
        Status::Cold
    }
}

impl Status {
    /// The word shown for the status.
    pub open spec fn word(&self) -> Seq<char> {
        match self {
            Status::Unknown => "unknown"@,
            Status::Connected => "connected"@,
            Status::Unavailable => "unavailable"@,
            Status::Cold => "cold"@,
        }
    }

    /// The word shown for the status.
    pub fn as_str(&self) -> (w: &'static str)
        ensures
            w@ == self.word(),
    {
        match self {
            Status::Unknown => "unknown",
            Status::Connected => "connected",
            Status::Unavailable => "unavailable",
            Status::Cold => "cold",
        }
    }
}

// ---------------------------------------------------------------------------
// Connecting
// ---------------------------------------------------------------------------

/// How long a connection (and the server's startup) may take, in seconds,
/// when the configuration does not say.
pub const DEFAULT_CONNECT_TIMEOUT_SECS: u64 = 10;

/// The connection timeout of a server, in seconds.
pub fn connect_timeout_secs(cfg: &ServerConfig) -> (t: u64)
    ensures
        t == match cfg.connect_timeout {
            Some(c) => c,
            None => DEFAULT_CONNECT_TIMEOUT_SECS,
        },
{
    match cfg.connect_timeout {
        Some(c) => c,
        None => DEFAULT_CONNECT_TIMEOUT_SECS,
    }
}

/// How a server is reached.
#[derive(PartialEq, Eq, Structural, Clone, Copy, Debug)]
pub enum Transport {
    /// Spawn its command and talk over stdin/stdout.
    Stdio,
    /// Talk streamable HTTP to its url.
    Http,
    /// Neither a command nor a url is configured.
    Missing,
}

/// How a server is reached: a command wins over a url.
pub fn transport_of(cfg: &ServerConfig) -> (t: Transport)
    ensures
        cfg.command is Some ==> t == Transport::Stdio,
        cfg.command is None && cfg.url is Some ==> t == Transport::Http,
        cfg.command is None && cfg.url is None ==> t == Transport::Missing,
{
    if cfg.command.is_some() {
        Transport::Stdio
    } else if cfg.url.is_some() {
        Transport::Http
    } else {
        Transport::Missing
    }
}

/// The `Authorization` header value that carries an access token.
pub fn bearer_value(token: &str) -> (v: String)
    ensures
        v@ == "Bearer "@ + token@,
{
    concat2("Bearer ", token)
}

// ---------------------------------------------------------------------------
// Request headers
// ---------------------------------------------------------------------------

/// A character allowed in a header name (an HTTP token character).
pub open spec fn token_char(c: char) -> bool {
    ||| 'a' <= c && c <= 'z'
    ||| 'A' <= c && c <= 'Z'
    ||| '0' <= c && c <= '9'
    ||| c == '!' || c == '#' || c == '$' || c == '%' || c == '&' || c == '\'' || c == '*'
    ||| c == '+' || c == '-' || c == '.' || c == '^' || c == '_' || c == '`' || c == '|' || c == '~'
}

/// Longest header name accepted.
pub const MAX_HEADER_NAME_LEN: usize = 65535;

/// `s` is a valid header name: 1 to `MAX_HEADER_NAME_LEN` token characters.
pub open spec fn header_name_ok(s: Seq<char>) -> bool {
    &&& 1 <= s.len() <= MAX_HEADER_NAME_LEN
    &&& forall|i: int| 0 <= i < s.len() ==> token_char(#[trigger] s[i])
}

/// A character allowed in a header value: a tab, or any character but the
/// other control characters and DEL.
pub open spec fn header_value_char(c: char) -> bool {
    c == '\t' || (32 <= c as u32 && c as u32 != 127)
}

/// `s` is a valid header value.
pub open spec fn header_value_ok(s: Seq<char>) -> bool {
    forall|i: int| 0 <= i < s.len() ==> header_value_char(#[trigger] s[i])
}

/// Calls `http::HeaderName::from_bytes` on the bytes of `s`, then
/// `HeaderName::as_str`. The contract claims what the crate's source does:
/// the name is accepted exactly when it is 1 to 65535 token characters, and
/// it comes back with `A`-`Z` lowered.
#[verifier::external_body]
fn normalize_header_name(s: &str) -> (r: Option<String>)
    ensures
        match r {
            Some(n) => header_name_ok(s@) && n@ == ascii_lower(s@),
            None => !header_name_ok(s@),
        },
{
    match http::HeaderName::from_bytes(s.as_bytes()) {
        Ok(n) => Some(n.as_str().to_string()),
        Err(_) => None,
    }
}

/// Calls `http::HeaderValue::from_str`. The contract claims what the crate's
/// source does: the value is accepted exactly when none of its bytes is a
/// control character other than tab, or DEL.
#[verifier::external_body]
fn header_value_valid(s: &str) -> (r: bool)
    ensures
        r == header_value_ok(s@),
{
    http::HeaderValue::from_str(s).is_ok()
}

/// Why the request headers could not be built.
#[derive(PartialEq, Eq, Structural, Clone, Copy, Debug)]
pub enum HeaderError {
    /// A header name is not a valid HTTP header name.
    BadName,
    /// A header value holds a forbidden character.
    BadValue,
}

impl HeaderError {
    /// The message the error carries.
    pub open spec fn message_spec(&self) -> Seq<char> {
        match self {
            HeaderError::BadName => "invalid HTTP header name"@,
            HeaderError::BadValue => "failed to parse header value"@,
        }
    }

    /// The error's message.
    pub fn message(&self) -> (m: String)
        ensures
            m@ == self.message_spec(),
    {
        match self {
            HeaderError::BadName => "invalid HTTP header name".to_string(),
            HeaderError::BadValue => "failed to parse header value".to_string(),
        }
    }
}

/// The headers that the configured `entries` give, in order: each name
/// lower-cased, a later entry replacing an earlier one of the same name;
/// the first invalid name or value (name before value) fails.
pub open spec fn headers_spec(entries: Seq<(Seq<char>, String)>) -> Result<Map<Seq<char>, Seq<char>>, HeaderError>
    decreases entries.len(),
{
    if entries.len() == 0 {
        Ok(Map::empty())
    } else {
        match headers_spec(entries.drop_last()) {
            Err(e) => Err(e),
            Ok(m) => {
                let e = entries.last();
                if !header_name_ok(e.0) {
                    Err(HeaderError::BadName)
                } else if !header_value_ok(e.1@) {
                    Err(HeaderError::BadValue)
                } else {
                    Ok(m.insert(ascii_lower(e.0), e.1@))
                }
            },
        }
    }
}

/// A name map holds exactly the headers of `m`.
pub open spec fn holds_headers(h: Seq<(Seq<char>, String)>, m: Map<Seq<char>, Seq<char>>) -> bool {
    forall|n: Seq<char>|
        #![trigger lookup(h, n)]
        #![trigger m.contains_key(n)]
        match lookup(h, n) {
            Some(v) => m.contains_key(n) && m[n] == v@,
            None => !m.contains_key(n),
        }
}

/// The headers to send to a server from its configured `headers`: names
/// lower-cased, a later entry of the same name winning; the first invalid
/// name or value is refused.
pub fn static_headers(headers: &NameMap<String>) -> (r: Result<NameMap<String>, HeaderError>)
    ensures
        match r {
            Ok(h) => headers_spec(headers@) matches Ok(m) && holds_headers(h@, m),
            Err(e) => headers_spec(headers@) == Err::<Map<Seq<char>, Seq<char>>, HeaderError>(e),
        },
{
    let mut out: NameMap<String> = NameMap::new();
    let ghost mut m: Map<Seq<char>, Seq<char>> = Map::empty();
    let mut i: usize = 0;
    while i < headers.len()
        invariant
            i <= headers@.len(),
            headers_spec(headers@.take(i as int)) == Ok::<Map<Seq<char>, Seq<char>>, HeaderError>(m),
            holds_headers(out@, m),
        decreases headers@.len() - i,
    {
        proof {
            assert(headers@.take(i + 1).drop_last() =~= headers@.take(i as int));
            assert(headers@.take(i + 1).last() == headers@[i as int]);
        }
        let name = headers.name_at(i);
        let value = headers.value_at(i);
        let n = match normalize_header_name(name.as_str()) {
            Some(n) => n,
            None => {
                proof {
                    lemma_headers_fail_extends(headers@, i as int + 1);
                }
                return Err(HeaderError::BadName);
            },
        };
        if !header_value_valid(value.as_str()) {
            proof {
                lemma_headers_fail_extends(headers@, i as int + 1);
            }
            return Err(HeaderError::BadValue);
        }
        let ghost old_out = out@;
        out.insert(n, value.clone());
        proof {
            let m2 = m.insert(n@, value@);
            assert forall|k: Seq<char>|
                #![trigger lookup(out@, k)]
                #![trigger m2.contains_key(k)]
                match lookup(out@, k) {
                    Some(v) => m2.contains_key(k) && m2[k] == v@,
                    None => !m2.contains_key(k),
                } by {
                if k != n@ {
                    assert(lookup(out@, k) == lookup(old_out, k));
                    match lookup(old_out, k) {
                        Some(v) => {},
                        None => {},
                    }
                }
            }
            m = m2;
        }
        i = i + 1;
    }
    assert(headers@.take(headers@.len() as int) =~= headers@);
    Ok(out)
}

/// Once a prefix of the entries fails, every longer prefix fails the same
/// way.
proof fn lemma_headers_fail_extends(entries: Seq<(Seq<char>, String)>, k: int)
    requires
        0 <= k <= entries.len(),
        headers_spec(entries.take(k)) is Err,
    ensures
        headers_spec(entries) == headers_spec(entries.take(k)),
    decreases entries.len() - k,
{
    if k < entries.len() {
        assert(entries.take(k + 1).drop_last() =~= entries.take(k));
        lemma_headers_fail_extends(entries, k + 1);
    } else {
        assert(entries.take(k) =~= entries);
    }
}

/// Adds the access token as the `authorization` header, in place of any
/// configured one; other headers stay. A token that makes an invalid header
/// value is refused and leaves the headers unchanged.
pub fn add_bearer(headers: &mut NameMap<String>, token: &str) -> (r: Result<(), HeaderError>)
    ensures
        r is Ok <==> header_value_ok("Bearer "@ + token@),
        r == Err::<(), HeaderError>(HeaderError::BadValue) <==> r is Err,
        r is Err ==> final(headers)@ == old(headers)@,
        r is Ok ==> (lookup(final(headers)@, "authorization"@) matches Some(v) && v@ == "Bearer "@
            + token@),
        r is Ok ==> forall|k: Seq<char>|
            k != "authorization"@ ==> lookup(final(headers)@, k) == lookup(old(headers)@, k),
{
    let v = bearer_value(token);
    if !header_value_valid(v.as_str()) {
        return Err(HeaderError::BadValue);
    }
    headers.insert("authorization".to_string(), v);
    Ok(())
}

/// Why a connection was not made.
pub enum ConnectError {
    /// The server has neither a command nor a url.
    NoTransport,
    /// The server wants OAuth authorization first; the user must open `url`.
    NeedsAuthorization { url: String },
    /// The connection did not come up within `secs` seconds.
    TimedOut { secs: u64 },
}

impl ConnectError {
    /// The message the error carries.
    pub open spec fn message_spec(&self) -> Seq<char> {
        match self {
            ConnectError::NoTransport => "server has neither command nor url"@,
            ConnectError::NeedsAuthorization { url } => "server requires OAuth authorization. Open in a browser: "@
                + url@
                + " \u{2014} then retry. Headless? Call authorize_server with the final redirect URL as pasted_url."@,
            ConnectError::TimedOut { secs } => "connect timed out after "@ + decimal(*secs as nat) + "s"@,
        }
    }

    /// The error's message.
    pub fn message(&self) -> (m: String)
        ensures
            m@ == self.message_spec(),
    {
        match self {
            ConnectError::NoTransport => "server has neither command nor url".to_string(),
            ConnectError::NeedsAuthorization { url } => concat3(
                "server requires OAuth authorization. Open in a browser: ",
                url.as_str(),
                " \u{2014} then retry. Headless? Call authorize_server with the final redirect URL as pasted_url.",
            ),
            ConnectError::TimedOut { secs } => {
                let n = decimal_string(*secs);
                concat3("connect timed out after ", n.as_str(), "s")
            },
        }
    }
}

// ---------------------------------------------------------------------------
// The index keeps only visible tools
// ---------------------------------------------------------------------------

/// The entries of `listed` whose names `cfg` allows, in order.
pub open spec fn keep_allowed_spec<T>(cfg: ServerConfig, listed: Seq<(String, T)>) -> Seq<(String, T)>
    decreases listed.len(),
{
    if listed.len() == 0 {
        Seq::empty()
    } else {
        let rest = keep_allowed_spec(cfg, listed.drop_last());
        if allowed(cfg, listed.last().0@) {
            rest.push(listed.last())
        } else {
            rest
        }
    }
}

/// Keeps the listed tools (by name) that the server's allow/deny rules let
/// through, in listing order.
pub fn keep_allowed<T>(cfg: &ServerConfig, listed: Vec<(String, T)>) -> (r: Vec<(String, T)>)
    ensures
        r@ == keep_allowed_spec(*cfg, listed@),
{
    let ghost ls = listed@;
    let mut r: Vec<(String, T)> = Vec::new();
    for e in it: listed
        invariant
            it.seq() == ls,
            r@ == keep_allowed_spec(*cfg, ls.take(it.index() as int)),
    {
        let ghost k = it.index() as int;
        proof {
            assert(ls.take(k + 1).drop_last() =~= ls.take(k));
            assert(ls.take(k + 1).last() == e);
        }
        if cfg.is_allowed(e.0.as_str()) {
            r.push(e);
        }
    }
    assert(ls.take(ls.len() as int) =~= ls);
    r
}

/// The index of a server holds exactly its allowed tools: every kept tool
/// is allowed, every allowed listed tool is kept, and nothing else appears.
pub proof fn keep_allowed_law<T>(cfg: ServerConfig, listed: Seq<(String, T)>)
    ensures
        forall|x: (String, T)|
            #[trigger] keep_allowed_spec(cfg, listed).contains(x) <==> (listed.contains(x) && allowed(cfg, x.0@)),
        keep_allowed_spec(cfg, listed).len() <= listed.len(),
    decreases listed.len(),
{
    if listed.len() > 0 {
        let front = listed.drop_last();
        keep_allowed_law(cfg, front);
        let rest = keep_allowed_spec(cfg, front);
        let last = listed.last();
        assert forall|x: (String, T)|
            #[trigger] keep_allowed_spec(cfg, listed).contains(x) <==> (listed.contains(x) && allowed(cfg, x.0@)) by {
            let out = keep_allowed_spec(cfg, listed);
            if out.contains(x) {
                let k = choose|k: int| 0 <= k < out.len() && out[k] == x;
                if allowed(cfg, last.0@) && k == rest.len() {
                    assert(listed[listed.len() - 1] == x);
                } else {
                    assert(rest[k] == x);
                    assert(rest.contains(x));
                    let m = choose|m: int| 0 <= m < front.len() && front[m] == x;
                    assert(listed[m] == x);
                }
            }
            if listed.contains(x) && allowed(cfg, x.0@) {
                let k = choose|k: int| 0 <= k < listed.len() && listed[k] == x;
                if k == listed.len() - 1 {
                    assert(out[rest.len() as int] == x);
                } else {
                    assert(front[k] == x);
                    assert(front.contains(x));
                    assert(rest.contains(x));
                    let m = choose|m: int| 0 <= m < rest.len() && rest[m] == x;
                    assert(out[m] == x);
                }
            }
        }
    }
}

// ---------------------------------------------------------------------------
// The call policy
// ---------------------------------------------------------------------------

/// Where a proxied tool call stands.
#[derive(PartialEq, Eq, Structural, Clone, Copy, Debug)]
pub enum CallPhase {
    /// Nothing done yet.
    Start,
    /// Connecting (or reusing the connection) for the first attempt.
    FirstConnect,
    /// The first attempt is in flight.
    FirstCall,
    /// The first attempt failed; reconnecting.
    Reconnect,
    /// Reconnected; re-listing the server's tools.
    Refresh,
    /// The single retry is in flight.
    Retry,
    /// The outcome is settled.
    Done,
}

/// What the outside work reported.
#[derive(PartialEq, Eq, Structural, Clone, Copy, Debug)]
pub enum CallEvent {
    /// The server name and the tool were looked up.
    Checked { known: bool, allowed: bool },
    /// A connection attempt finished.
    Connected { ok: bool },
    /// A call finished.
    Called { ok: bool },
    /// The re-listing finished (its outcome does not matter).
    Refreshed,
}

/// What to do next.
#[derive(PartialEq, Eq, Structural, Clone, Copy, Debug)]
pub enum CallAction {
    /// Refuse: no such server.
    RefuseUnknown,
    /// Refuse: the tool is blocked by config.
    RefuseBlocked,
    /// Connect to the server (or reuse its live connection).
    Connect,
    /// Call the tool.
    Call,
    /// Drop the (possibly dead) connection and connect again.
    DropAndReconnect,
    /// Re-list the server's tools.
    Refresh,
    /// Return the last outcome: the call's result, or the last error.
    Finish,
}

/// The next phase and action of a proxied call: unknown servers and blocked
/// tools are refused without connecting; a failed first call drops the
/// connection, reconnects, re-lists the tools and retries exactly once.
pub fn call_step(phase: CallPhase, event: CallEvent) -> (r: (CallPhase, CallAction))
    ensures
        r == call_step_spec(phase, event),
{
    match (phase, event) {
        (CallPhase::Start, CallEvent::Checked { known, allowed }) => {
            if !known {
                (CallPhase::Done, CallAction::RefuseUnknown)
            } else if !allowed {
                (CallPhase::Done, CallAction::RefuseBlocked)
            } else {
                (CallPhase::FirstConnect, CallAction::Connect)
            }
        },
        (CallPhase::FirstConnect, CallEvent::Connected { ok }) => {
            if ok {
                (CallPhase::FirstCall, CallAction::Call)
            } else {
                (CallPhase::Done, CallAction::Finish)
            }
        },
        (CallPhase::FirstCall, CallEvent::Called { ok }) => {
            if ok {
                (CallPhase::Done, CallAction::Finish)
            } else {
                (CallPhase::Reconnect, CallAction::DropAndReconnect)
            }
        },
        (CallPhase::Reconnect, CallEvent::Connected { ok }) => {
            if ok {
                (CallPhase::Refresh, CallAction::Refresh)
            } else {
                (CallPhase::Done, CallAction::Finish)
            }
        },
        (CallPhase::Refresh, CallEvent::Refreshed) => (CallPhase::Retry, CallAction::Call),
        _ => (CallPhase::Done, CallAction::Finish),
    }
}

/// The transition function of the call policy.
pub open spec fn call_step_spec(phase: CallPhase, event: CallEvent) -> (CallPhase, CallAction) {
    match (phase, event) {
        (CallPhase::Start, CallEvent::Checked { known, allowed }) => if !known {
            (CallPhase::Done, CallAction::RefuseUnknown)
        } else if !allowed {
            (CallPhase::Done, CallAction::RefuseBlocked)
        } else {
            (CallPhase::FirstConnect, CallAction::Connect)
        },
        (CallPhase::FirstConnect, CallEvent::Connected { ok }) => if ok {
            (CallPhase::FirstCall, CallAction::Call)
        } else {
            (CallPhase::Done, CallAction::Finish)
        },
        (CallPhase::FirstCall, CallEvent::Called { ok }) => if ok {
            (CallPhase::Done, CallAction::Finish)
        } else {
            (CallPhase::Reconnect, CallAction::DropAndReconnect)
        },
        (CallPhase::Reconnect, CallEvent::Connected { ok }) => if ok {
            (CallPhase::Refresh, CallAction::Refresh)
        } else {
            (CallPhase::Done, CallAction::Finish)
        },
        (CallPhase::Refresh, CallEvent::Refreshed) => (CallPhase::Retry, CallAction::Call),
        _ => (CallPhase::Done, CallAction::Finish),
    }
}

/// The actions the policy takes, from `phase`, for a sequence of events.
pub open spec fn call_run(phase: CallPhase, events: Seq<CallEvent>) -> Seq<CallAction>
    decreases events.len(),
{
    if events.len() == 0 {
        Seq::empty()
    } else {
        let (next, action) = call_step_spec(phase, events[0]);
        seq![action] + call_run(next, events.drop_first())
    }
}

/// How many calls the policy may still make from `phase`.
pub open spec fn calls_left(phase: CallPhase) -> nat {
    match phase {
        CallPhase::Start => 2,
        CallPhase::FirstConnect => 2,
        CallPhase::FirstCall => 1,
        CallPhase::Reconnect => 1,
        CallPhase::Refresh => 1,
        CallPhase::Retry => 0,
        CallPhase::Done => 0,
    }
}

/// The number of `Call` actions in `actions`.
pub open spec fn call_count(actions: Seq<CallAction>) -> nat
    decreases actions.len(),
{
    if actions.len() == 0 {
        0
    } else {
        (if actions[0] == CallAction::Call {
            1nat
        } else {
            0nat
        }) + call_count(actions.drop_first())
    }
}

/// From any phase, the policy calls the tool at most as often as that phase
/// allows.
proof fn lemma_calls_bounded(phase: CallPhase, events: Seq<CallEvent>)
    ensures
        call_count(call_run(phase, events)) <= calls_left(phase),
        phase == CallPhase::Done ==> forall|k: int|
            0 <= k < call_run(phase, events).len() ==> #[trigger] call_run(phase, events)[k] == CallAction::Finish,
    decreases events.len(),
{
    if events.len() > 0 {
        let (next, action) = call_step_spec(phase, events[0]);
        lemma_calls_bounded(next, events.drop_first());
        let run = call_run(phase, events);
        assert(run.drop_first() =~= call_run(next, events.drop_first()));
        if phase == CallPhase::Done {
            assert forall|k: int| 0 <= k < run.len() implies #[trigger] run[k] == CallAction::Finish by {
                if k > 0 {
                    assert(run[k] == call_run(next, events.drop_first())[k - 1]);
                }
            }
        }
    }
}

/// A proxied call makes at most two calls to the upstream tool (the first
/// attempt and one retry), and once it has settled it does nothing more.
pub proof fn call_policy_law(events: Seq<CallEvent>)
    ensures
        call_count(call_run(CallPhase::Start, events)) <= 2,
        forall|events2: Seq<CallEvent>|
            #![trigger call_run(CallPhase::Done, events2)]
            forall|k: int|
                0 <= k < call_run(CallPhase::Done, events2).len() ==> #[trigger] call_run(CallPhase::Done, events2)[k]
                    == CallAction::Finish,
{
    lemma_calls_bounded(CallPhase::Start, events);
    assert forall|events2: Seq<CallEvent>|
        #![trigger call_run(CallPhase::Done, events2)]
        forall|k: int|
            0 <= k < call_run(CallPhase::Done, events2).len() ==> #[trigger] call_run(CallPhase::Done, events2)[k]
                == CallAction::Finish by {
        lemma_calls_bounded(CallPhase::Done, events2);
    }
}

/// An unknown server or a blocked tool is refused before any connection is
/// made.
pub proof fn refusal_law(known: bool, allowed: bool, rest: Seq<CallEvent>)
    requires
        !known || !allowed,
    ensures
        ({
            let run = call_run(CallPhase::Start, seq![CallEvent::Checked { known, allowed }] + rest);
            &&& run[0] == (if !known {
                CallAction::RefuseUnknown
            } else {
                CallAction::RefuseBlocked
            })
            &&& forall|k: int| 1 <= k < run.len() ==> #[trigger] run[k] == CallAction::Finish
        }),
{
    let events = seq![CallEvent::Checked { known, allowed }] + rest;
    assert(events.drop_first() =~= rest);
    lemma_calls_bounded(CallPhase::Done, rest);
    let run = call_run(CallPhase::Start, events);
    assert forall|k: int| 1 <= k < run.len() implies #[trigger] run[k] == CallAction::Finish by {
        assert(run[k] == call_run(CallPhase::Done, rest)[k - 1]);
    }
}


/// Refusals happen only at the start: from any other phase the policy never
/// refuses, and the retry's outcome, success or failure, is what the call
/// returns.
pub proof fn refusal_only_at_start_law(phase: CallPhase, event: CallEvent)
    ensures
        phase != CallPhase::Start ==> call_step_spec(phase, event).1 != CallAction::RefuseUnknown
            && call_step_spec(phase, event).1 != CallAction::RefuseBlocked,
        call_step_spec(CallPhase::Retry, CallEvent::Called { ok: true }) == (CallPhase::Done, CallAction::Finish),
        call_step_spec(CallPhase::Retry, CallEvent::Called { ok: false }) == (CallPhase::Done, CallAction::Finish),
        call_step_spec(CallPhase::FirstCall, CallEvent::Called { ok: true }) == (CallPhase::Done, CallAction::Finish),
{
}

} // verus!
