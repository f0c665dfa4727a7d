use mcp_multiplexer::config::ServerConfig;
use mcp_multiplexer::names::NameMap;
use mcp_multiplexer::upstream::{
    add_bearer, bearer_value, call_step, connect_timeout_secs, static_headers, HeaderError, keep_allowed, status_of, transport_of, CallAction,
    CallEvent, CallPhase, ConnectError, Status, Transport, DEFAULT_CONNECT_TIMEOUT_SECS,
};

#[test]
fn status_words() {
    assert_eq!(status_of(false, true, true), Status::Unknown);
    assert_eq!(status_of(true, true, true), Status::Connected);
    assert_eq!(status_of(true, false, true), Status::Unavailable);
    assert_eq!(status_of(true, false, false), Status::Cold);
    assert_eq!(Status::Cold.as_str(), "cold");
    assert_eq!(Status::Connected.as_str(), "connected");
    assert_eq!(Status::Unavailable.as_str(), "unavailable");
    assert_eq!(Status::Unknown.as_str(), "unknown");
}

#[test]
fn index_keeps_only_visible_tools() {
    let mut deny = ServerConfig::empty();
    deny.deny = vec!["echo".to_string()];
    let listed = vec![("add".to_string(), 1), ("echo".to_string(), 2), ("fail".to_string(), 3)];
    let kept: Vec<String> = keep_allowed(&deny, listed.clone()).into_iter().map(|(n, _)| n).collect();
    assert_eq!(kept, vec!["add".to_string(), "fail".to_string()]);

    let mut allow = ServerConfig::empty();
    allow.allow = Some(vec!["add".to_string()]);
    let kept = keep_allowed(&allow, listed);
    assert_eq!(kept, vec![("add".to_string(), 1)]);
}

fn run(events: &[CallEvent]) -> Vec<CallAction> {
    let mut phase = CallPhase::Start;
    let mut out = Vec::new();
    for e in events {
        let (p, a) = call_step(phase, *e);
        phase = p;
        out.push(a);
    }
    out
}

#[test]
fn call_policy_retries_once() {
    let ok = CallEvent::Checked { known: true, allowed: true };
    assert_eq!(
        run(&[ok, CallEvent::Connected { ok: true }, CallEvent::Called { ok: true }]),
        vec![CallAction::Connect, CallAction::Call, CallAction::Finish]
    );
    assert_eq!(
        run(&[
            ok,
            CallEvent::Connected { ok: true },
            CallEvent::Called { ok: false },
            CallEvent::Connected { ok: true },
            CallEvent::Refreshed,
            CallEvent::Called { ok: false },
            CallEvent::Called { ok: false },
        ]),
        vec![CallAction::Connect, CallAction::Call, CallAction::DropAndReconnect, CallAction::Refresh, CallAction::Call, CallAction::Finish, CallAction::Finish]
    );
    assert_eq!(run(&[ok, CallEvent::Connected { ok: false }]), vec![CallAction::Connect, CallAction::Finish]);
    assert_eq!(
        run(&[ok, CallEvent::Connected { ok: true }, CallEvent::Called { ok: false }, CallEvent::Connected { ok: false }]),
        vec![CallAction::Connect, CallAction::Call, CallAction::DropAndReconnect, CallAction::Finish]
    );
}

#[test]
fn call_policy_refuses_without_connecting() {
    assert_eq!(
        run(&[CallEvent::Checked { known: false, allowed: true }, CallEvent::Connected { ok: true }]),
        vec![CallAction::RefuseUnknown, CallAction::Finish]
    );
    assert_eq!(
        run(&[CallEvent::Checked { known: true, allowed: false }]),
        vec![CallAction::RefuseBlocked]
    );
}

#[test]
fn connect_timeout_defaults_to_ten_seconds() {
    let mut cfg = ServerConfig::empty();
    assert_eq!(DEFAULT_CONNECT_TIMEOUT_SECS, 10);
    assert_eq!(connect_timeout_secs(&cfg), 10);
    cfg.connect_timeout = Some(3);
    assert_eq!(connect_timeout_secs(&cfg), 3);
}

#[test]
fn command_wins_over_url() {
    let mut cfg = ServerConfig::empty();
    assert_eq!(transport_of(&cfg), Transport::Missing);
    cfg.url = Some("https://x.test/mcp".to_string());
    assert_eq!(transport_of(&cfg), Transport::Http);
    cfg.command = Some("npx".to_string());
    assert_eq!(transport_of(&cfg), Transport::Stdio);
}

#[test]
fn connect_messages() {
    assert_eq!(bearer_value("tok"), "Bearer tok");
    assert_eq!(ConnectError::NoTransport.message(), "server has neither command nor url");
    assert_eq!(ConnectError::TimedOut { secs: 10 }.message(), "connect timed out after 10s");
    assert_eq!(
        ConnectError::NeedsAuthorization { url: "https://auth.test/a".to_string() }.message(),
        "server requires OAuth authorization. Open in a browser: https://auth.test/a \u{2014} then retry. Headless? Call authorize_server with the final redirect URL as pasted_url."
    );
}

#[test]
fn headers_are_lowercased_and_bearer_wins() {
    let mut cfg = NameMap::new();
    cfg.insert("Authorization".to_string(), "Bearer static".to_string());
    cfg.insert("X-Api-Key".to_string(), "k".to_string());
    let mut h = static_headers(&cfg).ok().unwrap();
    assert_eq!(h.get("authorization").map(|s| s.as_str()), Some("Bearer static"));
    assert_eq!(h.get("x-api-key").map(|s| s.as_str()), Some("k"));
    assert!(add_bearer(&mut h, "tok").is_ok());
    assert_eq!(h.get("authorization").map(|s| s.as_str()), Some("Bearer tok"));
    assert_eq!(h.get("x-api-key").map(|s| s.as_str()), Some("k"));
    assert_eq!(h.len(), 2);
    assert_eq!(add_bearer(&mut h, "bad\ntoken"), Err(HeaderError::BadValue));
    assert_eq!(h.get("authorization").map(|s| s.as_str()), Some("Bearer tok"));
}

#[test]
fn bad_headers_are_refused_in_order() {
    let mut cfg = NameMap::new();
    cfg.insert("a b".to_string(), "v".to_string());
    cfg.insert("z".to_string(), "bad\u{7f}".to_string());
    assert_eq!(static_headers(&cfg).err(), Some(HeaderError::BadName));
    let mut cfg = NameMap::new();
    cfg.insert("a".to_string(), "bad\u{7f}".to_string());
    assert_eq!(static_headers(&cfg).err(), Some(HeaderError::BadValue));
    assert_eq!(HeaderError::BadName.message(), "invalid HTTP header name");
    assert_eq!(HeaderError::BadValue.message(), "failed to parse header value");
    let mut cfg = NameMap::new();
    cfg.insert("X".to_string(), "t\u{e9}st\tok".to_string());
    assert!(static_headers(&cfg).is_ok());
}
