use mcp_multiplexer::config::ServerConfig;
use mcp_multiplexer::oauth::{
    callback_port, callback_response, callback_url, check_completion, discovery_candidates,
    discovery_first, discovery_step, discovery_urls, flow_start, reads_body, DiscoveryAction,
    Fetched, is_stale_client_error, redirect_uri, request_path, request_plan,
    scan_request, token_decision, AuthFailure, CompletionError, DiscoveryError, FlowStart,
    RequestScan, TokenDecision,
};

#[test]
fn parses_request_line() {
    assert_eq!(
        request_path("GET /callback?code=abc&state=xyz HTTP/1.1"),
        Some("/callback?code=abc&state=xyz")
    );
    assert_eq!(request_path("POST /callback HTTP/1.1"), None);
    assert_eq!(request_path("garbage"), None);
}

#[test]
fn detects_stale_client_registration() {
    let e = AuthFailure::TokenRefreshFailed(
        "Server returned error response: invalid_client: Invalid client_id".into(),
    );
    assert!(is_stale_client_error(&e));
    assert!(!is_stale_client_error(&AuthFailure::AuthorizationRequired));
    assert!(!is_stale_client_error(&AuthFailure::TokenRefreshFailed(
        "connection refused".into()
    )));
}

#[test]
fn stale_rejection_and_other_failures() {
    assert!(is_stale_client_error(&AuthFailure::TokenRefreshRejected("invalid_client".into())));
    assert!(!is_stale_client_error(&AuthFailure::Other("invalid_client".into())));
    assert!(matches!(token_decision(Ok("tok".into())), TokenDecision::Use(t) if t == "tok"));
    assert!(matches!(token_decision(Err(AuthFailure::AuthorizationRequired)), TokenDecision::Authorize));
    assert!(matches!(
        token_decision(Err(AuthFailure::TokenRefreshRejected("x invalid_client y".into()))),
        TokenDecision::ClearAndAuthorize
    ));
    assert!(matches!(
        token_decision(Err(AuthFailure::Other("boom".into()))),
        TokenDecision::Fail(AuthFailure::Other(m)) if m == "boom"
    ));
}

#[test]
fn request_line_edges() {
    assert_eq!(request_path("GET"), None);
    assert_eq!(request_path("  GET   /x  "), Some("/x"));
    assert_eq!(request_path("get /x HTTP/1.1"), None);
    assert_eq!(request_path(""), None);
}

#[test]
fn scans_for_the_end_of_the_request_line() {
    assert_eq!(scan_request(b"GET / HTTP/1.1\r\nHost: x\r\n"), RequestScan::Line(14));
    assert_eq!(scan_request(b"GET / HTTP/1.1\r"), RequestScan::Incomplete);
    assert_eq!(scan_request(b""), RequestScan::Incomplete);
    assert_eq!(scan_request(&vec![b'a'; 8192]), RequestScan::Incomplete);
    assert_eq!(scan_request(&vec![b'a'; 8193]), RequestScan::TooLarge);
}

#[test]
fn callback_addresses() {
    assert_eq!(callback_url("/callback?code=1"), "http://127.0.0.1/callback?code=1");
    assert_eq!(redirect_uri(8765), "http://127.0.0.1:8765/callback");
    assert_eq!(redirect_uri(0), "http://127.0.0.1:0/callback");
    let body = "<html><body><h3>mcp-multiplexer</h3><p>Authorization complete - you can close this tab.</p></body></html>";
    assert_eq!(
        callback_response(),
        format!(
            "HTTP/1.1 200 OK\r\nContent-Type: text/html\r\nContent-Length: {}\r\nConnection: close\r\n\r\n{body}",
            body.len()
        )
    );
}

#[test]
fn discovery_candidates_follow_the_server_path() {
    let ps = discovery_candidates("/mcp");
    assert_eq!(
        ps,
        vec![
            "/.well-known/oauth-authorization-server/mcp".to_string(),
            "/.well-known/openid-configuration/mcp".to_string(),
            "/mcp/.well-known/openid-configuration".to_string(),
            "/.well-known/oauth-authorization-server".to_string(),
        ]
    );
    let ps = discovery_candidates("/");
    assert_eq!(
        ps,
        vec![
            "/.well-known/oauth-authorization-server".to_string(),
            "/.well-known/openid-configuration".to_string(),
        ]
    );
    assert_eq!(discovery_candidates("//a/b//")[0], "/.well-known/oauth-authorization-server/a/b");
}

#[test]
fn discovery_urls_keep_the_origin_and_drop_query() {
    let d = discovery_urls("http://127.0.0.1:1234/mcp?x=1#frag").ok().unwrap();
    assert_eq!(d.base, "http://127.0.0.1:1234/mcp?x=1#frag");
    assert_eq!(
        d.urls,
        vec![
            "http://127.0.0.1:1234/.well-known/oauth-authorization-server/mcp".to_string(),
            "http://127.0.0.1:1234/.well-known/openid-configuration/mcp".to_string(),
            "http://127.0.0.1:1234/mcp/.well-known/openid-configuration".to_string(),
            "http://127.0.0.1:1234/.well-known/oauth-authorization-server".to_string(),
        ]
    );
    match discovery_urls("not a url") {
        Err(e) => {
            assert_eq!(e.message(), "bad server url \"not a url\": relative URL without a base");
        }
        Ok(_) => panic!("expected a bad url"),
    }
    let e = DiscoveryError::NoMetadata { url: "https://x.test/".to_string() };
    assert_eq!(e.message(), "oauth: no authorization server metadata found for https://x.test/");
}

#[test]
fn open_flows_are_reported_again() {
    assert_eq!(flow_start(true), FlowStart::ReReport);
    assert_eq!(flow_start(false), FlowStart::Start);
    assert!(check_completion(true).is_ok());
    let e = check_completion(false).err().unwrap();
    assert_eq!(
        e.message(),
        "no authorization in progress \u{2014} call authorize_server without pasted_url first"
    );
    let r = CompletionError::Rejected { reason: "bad state".to_string() };
    assert_eq!(
        r.message(),
        "redirect URL rejected: bad state \u{2014} if this persists, restart the flow via authorize_server"
    );
}

#[test]
fn callback_port_defaults_to_ephemeral() {
    let mut cfg = ServerConfig::empty();
    assert_eq!(callback_port(&cfg), 0);
    cfg.oauth_redirect_port = Some(8765);
    assert_eq!(callback_port(&cfg), 8765);
}

#[test]
fn request_plan_prefers_configured_client_and_keeps_scopes() {
    let mut cfg = ServerConfig::empty();
    let plan = request_plan(&cfg, Some("stored".to_string()), 4321);
    assert_eq!(plan.redirect_uri, "http://127.0.0.1:4321/callback");
    assert_eq!(plan.client_name, "mcp-multiplexer");
    assert_eq!(plan.scopes, None);
    assert_eq!(plan.client_id.as_deref(), Some("stored"));

    cfg.oauth_client_id = Some("configured".to_string());
    cfg.oauth_scopes = vec!["read".to_string(), "write".to_string()];
    let plan = request_plan(&cfg, Some("stored".to_string()), 80);
    assert_eq!(plan.client_id.as_deref(), Some("configured"));
    assert_eq!(plan.scopes, Some(vec!["read".to_string(), "write".to_string()]));
    assert_eq!(plan.redirect_uri, "http://127.0.0.1:80/callback");

    let mut dynamic = ServerConfig::empty();
    dynamic.oauth = true;
    assert_eq!(request_plan(&dynamic, None, 1).client_id, None);
}

#[test]
fn discovery_takes_the_first_candidate_serving_metadata() {
    assert_eq!(discovery_first(0), DiscoveryAction::GiveUp);
    assert_eq!(discovery_first(4), DiscoveryAction::Try(0));
    assert!(reads_body(200));
    assert!(!reads_body(404));
    assert_eq!(discovery_step(0, 4, Fetched::Unreachable), DiscoveryAction::Try(1));
    assert_eq!(discovery_step(1, 4, Fetched::Answered { status: 404, metadata: false }), DiscoveryAction::Try(2));
    assert_eq!(discovery_step(2, 4, Fetched::Answered { status: 200, metadata: false }), DiscoveryAction::Try(3));
    assert_eq!(discovery_step(3, 4, Fetched::Answered { status: 200, metadata: true }), DiscoveryAction::Accept);
    assert_eq!(discovery_step(3, 4, Fetched::Answered { status: 500, metadata: false }), DiscoveryAction::GiveUp);
}
