use mcp_multiplexer::config::{Config, ServerConfig};
use mcp_multiplexer::model::ToolInfo;
use mcp_multiplexer::server::{
    check_not_blocked, check_oauth, effective_limit, exposed_tool_name, find_tool, join, route_exposed,
    select_servers, sort_results, summarize_tools, RefreshResult, ServerError,
};

fn server(expose: bool) -> ServerConfig {
    let mut s = ServerConfig::empty();
    s.command = Some("x".to_string());
    s.expose = expose;
    s
}

fn config_of(entries: Vec<(&str, ServerConfig)>) -> Config {
    let entries = entries.into_iter().map(|(n, s)| (n.to_string(), s)).collect();
    match Config::from_entries(entries) {
        Ok(c) => c,
        Err(e) => panic!("{}", e.message()),
    }
}

fn tool(name: &str) -> ToolInfo {
    ToolInfo {
        name: name.to_string(),
        description: Some(format!("{name} tool")),
        schema: serde_json::Value::Object(serde_json::Map::new()),
        annotations: Some(serde_json::Value::Bool(true)),
    }
}

#[test]
fn routes_by_longest_exposed_prefix() {
    let cfg = config_of(vec![("a", server(true)), ("a__b", server(true))]);
    assert_eq!(route_exposed(&cfg, "a__b__echo"), Some(("a__b", "echo")));
    assert_eq!(route_exposed(&cfg, "a__echo"), Some(("a", "echo")));
    assert_eq!(route_exposed(&cfg, "search_tools"), None);
    assert_eq!(route_exposed(&cfg, "a__"), Some(("a", "")));
}

#[test]
fn unexposed_servers_do_not_route() {
    let cfg = config_of(vec![("a", server(true)), ("a__b", server(false))]);
    assert_eq!(route_exposed(&cfg, "a__b__echo"), Some(("a", "b__echo")));
    let cfg = config_of(vec![("a", server(false))]);
    assert_eq!(route_exposed(&cfg, "a__echo"), None);
}

#[test]
fn exposed_names_route_back() {
    let cfg = config_of(vec![("fast", server(true)), ("slow", server(true))]);
    let name = exposed_tool_name("slow", "find_symbol");
    assert_eq!(name, "slow__find_symbol");
    assert_eq!(route_exposed(&cfg, &name), Some(("slow", "find_symbol")));
}

#[test]
fn selects_named_or_all_servers() {
    let names = vec!["dead".to_string(), "hang".to_string(), "mock".to_string()];
    assert_eq!(select_servers(&names, None).ok().unwrap(), names);
    assert_eq!(select_servers(&names, Some("mock")).ok().unwrap(), vec!["mock".to_string()]);
    let err = select_servers(&names, Some("nope")).err().unwrap().message();
    assert!(err.contains("unknown server") && err.contains("mock"), "{err}");
    assert_eq!(err, "unknown server \"nope\"; available: dead, hang, mock");
}

#[test]
fn join_separates_names() {
    assert_eq!(join(&vec![], ", "), "");
    assert_eq!(join(&vec!["a".to_string()], ", "), "a");
    assert_eq!(join(&vec!["a".to_string(), "b".to_string(), "c".to_string()], "+"), "a+b+c");
}

#[test]
fn blocked_and_unknown_tools() {
    let mut s = server(false);
    s.deny = vec!["echo".to_string()];
    let cfg = config_of(vec![("mock", s)]);
    let err = check_not_blocked(&cfg, "mock", "echo").err().unwrap().message();
    assert!(err.contains("blocked by config"), "{err}");
    assert!(check_not_blocked(&cfg, "mock", "add").is_ok());
    // servers that are not configured are not blocked here
    assert!(check_not_blocked(&cfg, "other", "echo").is_ok());

    let tools = vec![tool("add"), tool("echo")];
    assert_eq!(find_tool(tools, "mock", "echo").ok().unwrap().name, "echo");
    let err = find_tool(vec![tool("add")], "mock", "nosuch").err().unwrap();
    assert!(matches!(&err, ServerError::UnknownTool { tool, server } if tool == "nosuch" && server == "mock"));
    assert!(err.message().contains("unknown tool"));
    assert_eq!(err.message(), "unknown tool \"nosuch\" on server \"mock\"");
}

#[test]
fn search_limit_defaults_and_caps() {
    assert_eq!(effective_limit(None), 5);
    assert_eq!(effective_limit(Some(3)), 3);
    assert_eq!(effective_limit(Some(25)), 25);
    assert_eq!(effective_limit(Some(100)), 25);
}

#[test]
fn summaries_drop_the_schema() {
    let s = summarize_tools(vec![tool("add"), tool("echo")]);
    assert_eq!(s.len(), 2);
    assert_eq!(s[1].name, "echo");
    assert_eq!(s[1].description.as_deref(), Some("echo tool"));
    assert_eq!(s[1].annotations, Some(serde_json::Value::Bool(true)));
}

#[test]
fn refresh_results_sort_by_name() {
    let rs = vec![
        RefreshResult::failed("c".to_string(), "boom".to_string()),
        RefreshResult::ok("a".to_string(), 3),
        RefreshResult::ok("b".to_string(), 0),
    ];
    let sorted = sort_results(rs);
    let names: Vec<&str> = sorted.iter().map(|r| r.name.as_str()).collect();
    assert_eq!(names, vec!["a", "b", "c"]);
    assert_eq!(sorted[0].status, "ok");
    assert_eq!(sorted[0].tool_count, Some(3));
    assert_eq!(sorted[2].status, "error");
    assert_eq!(sorted[2].error.as_deref(), Some("boom"));
    assert_eq!(sorted[2].tool_count, None);
}

#[test]
fn oauth_requests_need_the_oauth_flag() {
    let mut sc = ServerConfig::empty();
    sc.url = Some("https://x.test/mcp".to_string());
    let e = check_oauth(&sc, "web").err().unwrap();
    assert_eq!(e.message(), "server \"web\" does not have \"oauth\": true in the config");
    sc.oauth = true;
    assert!(check_oauth(&sc, "web").is_ok());
}
