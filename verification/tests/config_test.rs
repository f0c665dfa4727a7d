use mcp_multiplexer::config::{expand, glob_match, Config, ConfigError, ExpandError, Problem, ServerConfig};
use mcp_multiplexer::names::NameMap;

fn env_with(pairs: &[(&str, &str)]) -> NameMap<String> {
    let mut m = NameMap::new();
    for (k, v) in pairs {
        m.insert(k.to_string(), v.to_string());
    }
    m
}

fn command_server(cmd: &str) -> ServerConfig {
    let mut s = ServerConfig::empty();
    s.command = Some(cmd.to_string());
    s
}

fn url_server(url: &str) -> ServerConfig {
    let mut s = ServerConfig::empty();
    s.url = Some(url.to_string());
    s
}

fn config_of(entries: Vec<(&str, ServerConfig)>) -> Config {
    let entries = entries.into_iter().map(|(n, s)| (n.to_string(), s)).collect();
    match Config::from_entries(entries) {
        Ok(c) => c,
        Err(e) => panic!("{}", e.message()),
    }
}

#[test]
fn expands_vars() {
    let get = env_with(&[("A", "x")]);
    assert_eq!(expand("a-${A}-b", &get).ok().unwrap(), "a-x-b");
    assert_eq!(expand("plain", &get).ok().unwrap(), "plain");
    assert_eq!(expand("${A}${A}", &get).ok().unwrap(), "xx");
    assert!(expand("${MISSING}", &get).err().unwrap().message().contains("MISSING"));
    assert!(expand("${unclosed", &get).is_err());
}

#[test]
fn parses_stdio_and_http() {
    let mut a = command_server("npx");
    a.args = vec!["-y".to_string(), "srv".to_string()];
    a.env.insert("K".to_string(), "V".to_string());
    let mut b = url_server("https://x.test/mcp");
    b.headers.insert("Authorization".to_string(), "Bearer t".to_string());
    let c = config_of(vec![("a", a), ("b", b)]);
    assert_eq!(c.mcp_servers.get("a").unwrap().command.as_deref(), Some("npx"));
    assert_eq!(c.mcp_servers.get("b").unwrap().url.as_deref(), Some("https://x.test/mcp"));
    assert!(c.validate().is_ok());
}

#[test]
fn rejects_neither_command_nor_url() {
    let c = config_of(vec![("bad", ServerConfig::empty())]);
    let err = c.validate().err().unwrap().message();
    assert!(err.contains("bad"), "{err}");
}

#[test]
fn rejects_both_command_and_url() {
    let mut s = command_server("x");
    s.url = Some("https://y".to_string());
    let c = config_of(vec![("bad", s)]);
    assert!(c.validate().is_err());
}

#[test]
fn rejects_duplicate_server_names() {
    let entries = vec![
        ("a".to_string(), command_server("x")),
        ("a".to_string(), command_server("y")),
    ];
    let err = match Config::from_entries(entries) {
        Ok(_) => panic!("duplicate accepted"),
        Err(e) => e.message(),
    };
    assert!(err.contains("a"), "{err}");
}

#[test]
fn allow_deny_glob() {
    let mut s = command_server("x");
    s.allow = Some(vec!["get_*".to_string(), "ping".to_string()]);
    s.deny = vec!["get_secret".to_string()];
    let c = config_of(vec![("s", s)]);
    let s = c.mcp_servers.get("s").unwrap();
    assert!(s.is_allowed("get_user"));
    assert!(s.is_allowed("ping"));
    assert!(!s.is_allowed("post_user"));
    assert!(!s.is_allowed("get_secret")); // deny wins
    assert!(s.is_denied("get_secret"));
    assert!(!s.is_denied("get_user"));
}

#[test]
fn no_allow_means_all_allowed_except_deny() {
    let mut s = command_server("x");
    s.deny = vec!["nuke".to_string()];
    let c = config_of(vec![("s", s)]);
    let s = c.mcp_servers.get("s").unwrap();
    assert!(s.is_allowed("anything"));
    assert!(!s.is_allowed("nuke"));
}

#[test]
fn glob_star_matches_prefix_only_once() {
    assert!(glob_match("get_*", "get_"));
    assert!(glob_match("*", "anything"));
    assert!(glob_match("a**", "a*b"));
    assert!(!glob_match("a**", "ab"));
    assert!(!glob_match("ping", "pingx"));
    assert!(glob_match("", ""));
}

#[test]
fn expand_messages_quote_their_subject() {
    let env = env_with(&[]);
    let e = expand("pre ${X} post", &env).err().unwrap();
    assert!(matches!(&e, ExpandError::UnsetVar { var } if var == "X"));
    assert_eq!(e.message(), "env var \"X\" referenced in config is not set");
    let e = expand("a ${b", &env).err().unwrap();
    assert_eq!(e.message(), "unclosed \"${\" in \"a ${b\"");
    // a `}` before the `${` does not close it
    assert!(expand("} ${b", &env).is_err());
    // an empty name is looked up like any other
    let env = env_with(&[("", "E")]);
    assert_eq!(expand("[${}]", &env).ok().unwrap(), "[E]");
}

#[test]
fn expansion_is_not_recursive() {
    let env = env_with(&[("A", "${B}"), ("B", "no")]);
    assert_eq!(expand("${A}", &env).ok().unwrap(), "${B}");
}

#[test]
fn expand_env_rewrites_every_string() {
    let env = env_with(&[("HOME", "/h"), ("TOKEN", "t0k")]);
    let mut s = command_server("${HOME}/bin/srv");
    s.args = vec!["--dir=${HOME}".to_string(), "plain".to_string()];
    s.env.insert("T".to_string(), "${TOKEN}".to_string());
    let mut w = url_server("https://${TOKEN}.example");
    w.headers.insert("Authorization".to_string(), "Bearer ${TOKEN}".to_string());
    w.deny = vec!["${HOME}".to_string()];
    let mut c = config_of(vec![("s", s), ("w", w)]);
    assert!(c.expand_env(&env).is_ok());
    let s = c.mcp_servers.get("s").unwrap();
    assert_eq!(s.command.as_deref(), Some("/h/bin/srv"));
    assert_eq!(s.args, vec!["--dir=/h".to_string(), "plain".to_string()]);
    assert_eq!(s.env.get("T").unwrap(), "t0k");
    let w = c.mcp_servers.get("w").unwrap();
    assert_eq!(w.url.as_deref(), Some("https://t0k.example"));
    assert_eq!(w.headers.get("Authorization").unwrap(), "Bearer t0k");
    // deny patterns are not expanded
    assert_eq!(w.deny, vec!["${HOME}".to_string()]);
}

#[test]
fn expand_env_reports_first_failing_server_and_keeps_config() {
    let env = env_with(&[]);
    let mut a = command_server("ok");
    a.args = vec!["${NOPE_A}".to_string()];
    let b = command_server("${NOPE_B}");
    let mut c = config_of(vec![("b", b), ("a", a)]);
    let err = c.expand_env(&env).err().unwrap();
    match &err {
        ConfigError::Expand { server, error: ExpandError::UnsetVar { var } } => {
            // servers are expanded in name order
            assert_eq!(server, "a");
            assert_eq!(var, "NOPE_A");
        }
        _ => panic!("unexpected error"),
    }
    assert_eq!(err.message(), "server \"a\": env var \"NOPE_A\" referenced in config is not set");
    assert_eq!(c.mcp_servers.get("a").unwrap().args, vec!["${NOPE_A}".to_string()]);
}

#[test]
fn validate_reports_each_problem() {
    let mut o = command_server("x");
    o.oauth = true;
    let c = config_of(vec![("o", o)]);
    let e = c.validate().err().unwrap();
    assert!(matches!(e, ConfigError::Invalid { problem: Problem::OAuthNeedsUrl, .. }));
    assert_eq!(e.message(), "server \"o\": oauth options require \"url\", not \"command\"");

    let mut p = url_server("https://u");
    p.oauth_scopes = vec!["read".to_string()];
    let c = config_of(vec![("p", p)]);
    let e = c.validate().err().unwrap();
    assert!(matches!(e, ConfigError::Invalid { problem: Problem::OAuthOptionsNeedOAuth, .. }));
    assert_eq!(e.message(), "server \"p\": oauth_* options require \"oauth\": true");

    let mut q = url_server("https://u");
    q.oauth = true;
    q.oauth_redirect_port = Some(8765);
    let c = config_of(vec![("q", q)]);
    assert!(c.validate().is_ok());

    let mut both = command_server("x");
    both.url = Some("https://y".to_string());
    let c = config_of(vec![("z", ServerConfig::empty()), ("y", both)]);
    let e = c.validate().err().unwrap();
    // the first server in name order is reported
    assert!(matches!(&e, ConfigError::Invalid { server, problem: Problem::BothTransports } if server == "y"));
    assert_eq!(e.message(), "server \"y\": has both \"command\" and \"url\", pick one");
}

#[test]
fn servers_are_kept_in_name_order() {
    let c = config_of(vec![
        ("zeta", command_server("z")),
        ("alpha", command_server("a")),
        ("mid", command_server("m")),
    ]);
    assert_eq!(c.mcp_servers.names(), vec!["alpha".to_string(), "mid".to_string(), "zeta".to_string()]);
}

#[test]
fn substituted_values_are_not_scanned_again() {
    let mut get = NameMap::new();
    get.insert("A".to_string(), "${B}".to_string());
    assert_eq!(expand("x${A}y", &get).ok().unwrap(), "x${B}y");
    // the first problem in reading order is the one reported
    match expand("${MISSING}${unclosed", &get) {
        Err(ExpandError::UnsetVar { var }) => assert_eq!(var, "MISSING"),
        _ => panic!("expected the unset variable"),
    }
    match expand("${A}${unclosed", &get) {
        Err(ExpandError::Unclosed { .. }) => {}
        _ => panic!("expected an unclosed reference"),
    }
}

#[test]
fn add_server_refuses_a_repeated_name() {
    let mut c = Config::new();
    let mut a = ServerConfig::empty();
    a.command = Some("x".to_string());
    assert!(c.add_server("a".to_string(), a.clone()).is_ok());
    let mut b = ServerConfig::empty();
    b.command = Some("y".to_string());
    let e = c.add_server("a".to_string(), b).err().unwrap();
    assert!(matches!(e, ConfigError::DuplicateServer { ref name } if name == "a"));
    assert_eq!(c.mcp_servers.len(), 1);
    assert_eq!(c.mcp_servers.get("a").unwrap().command.as_deref(), Some("x"));
}
