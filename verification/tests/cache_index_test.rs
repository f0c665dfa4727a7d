use mcp_multiplexer::cache::{cache_dir_from, cache_path_from, config_hash, join_path, Cache, CacheFile};
use mcp_multiplexer::model::ToolInfo;
use mcp_multiplexer::names::NameMap;

fn tool(name: &str) -> ToolInfo {
    ToolInfo {
        name: name.to_string(),
        description: Some("d".to_string()),
        schema: serde_json::Value::String("object".to_string()),
        annotations: None,
    }
}

#[test]
fn config_hash_is_a_function_of_the_text() {
    assert_eq!(config_hash("{\"mcpServers\":{}}"), config_hash("{\"mcpServers\":{}}"));
    assert_ne!(config_hash("a"), config_hash("b"));
}

#[test]
fn config_hash_is_the_std_hash_of_the_text() {
    let text = "{\"mcpServers\":{\"a\":{\"command\":\"x\"}}}";
    let mut h = std::collections::hash_map::DefaultHasher::new();
    std::hash::Hash::hash(text, &mut h);
    assert_eq!(config_hash(text), std::hash::Hasher::finish(&h));
}

#[test]
fn file_roundtrip_and_wrong_hash() {
    let mut c = Cache::default();
    c.servers.insert("s".to_string(), vec![tool("t")]);
    c.instructions.insert("s".to_string(), "use wisely".to_string());
    let f = c.to_file(42);
    assert_eq!(f.config_hash, 42);
    let loaded = Cache::from_file(f, 42);
    assert_eq!(loaded.servers.get("s").unwrap()[0].name, "t");
    assert_eq!(loaded.instructions.get("s").unwrap(), "use wisely");
    assert_eq!(loaded.tools_for("s")[0].schema, serde_json::Value::String("object".to_string()));
    assert!(loaded.tools_for("other").is_empty());
    assert_eq!(loaded.instructions_for("s").as_deref(), Some("use wisely"));
    assert_eq!(loaded.instructions_for("other"), None);

    let stale = CacheFile { config_hash: 1, servers: NameMap::new(), instructions: NameMap::new() };
    let mut stale = stale;
    stale.servers.insert("s".to_string(), vec![tool("t")]);
    let loaded = Cache::from_file(stale, 2);
    assert!(loaded.servers.is_empty());
    assert!(loaded.instructions.is_empty());
}

#[test]
fn record_listing_replaces_one_server() {
    let mut c = Cache::default();
    c.record_listing("a", vec![tool("old")], Some("first".to_string()));
    c.record_listing("b", vec![tool("other")], None);
    c.record_listing("a", vec![tool("new"), tool("newer")], None);
    let a = c.tools_for("a");
    assert_eq!(a.len(), 2);
    assert_eq!(a[0].name, "new");
    assert_eq!(c.instructions_for("a").as_deref(), Some("first"));
    assert_eq!(c.tools_for("b")[0].name, "other");
    assert_eq!(c.instructions_for("b"), None);
    c.record_listing("a", vec![], Some("second".to_string()));
    assert!(c.tools_for("a").is_empty());
    assert_eq!(c.instructions_for("a").as_deref(), Some("second"));
}

#[test]
fn cache_directory_follows_xdg_then_home() {
    assert_eq!(cache_dir_from(Some("/x/cache".to_string()), Some("/home/me".to_string())), "/x/cache/mcp-multiplexer");
    assert_eq!(cache_dir_from(Some("/x/cache/".to_string()), None), "/x/cache/mcp-multiplexer");
    assert_eq!(cache_dir_from(None, Some("/home/me".to_string())), "/home/me/.cache/mcp-multiplexer");
    assert_eq!(cache_dir_from(None, None), "./mcp-multiplexer");
    assert_eq!(cache_dir_from(Some(String::new()), None), "mcp-multiplexer");
    assert_eq!(cache_path_from("/home/me/.cache/mcp-multiplexer"), "/home/me/.cache/mcp-multiplexer/index.json");
    assert_eq!(join_path("/d/", "tokens.json"), "/d/tokens.json");
    let p = std::path::PathBuf::from("/home/me").join(".cache").join("mcp-multiplexer").join("index.json");
    assert_eq!(cache_path_from(&cache_dir_from(None, Some("/home/me".to_string()))), p.to_str().unwrap());
}
