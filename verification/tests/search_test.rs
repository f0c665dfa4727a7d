use mcp_multiplexer::model::ToolInfo;
use mcp_multiplexer::search::search;

fn t(name: &str, desc: &str) -> ToolInfo {
    ToolInfo {
        name: name.into(),
        description: Some(desc.into()),
        schema: serde_json::Value::Object(serde_json::Map::new()),
        annotations: None,
    }
}

#[test]
fn ranks_name_hits_first_and_filters() {
    let index = vec![
        ("github".to_string(), vec![
            t("create_issue", "Open a new issue"),
            t("delete_repo", "Remove a repository about issues"),
        ]),
        ("slack".to_string(), vec![t("post_message", "Send a message")]),
    ];
    let hits = search(&index, "issue", None, 5);
    assert_eq!(hits[0].1.name, "create_issue");
    let hits = search(&index, "message", Some("slack"), 5);
    assert_eq!(hits.len(), 1);
    assert_eq!(hits[0].0, "slack");
    assert!(search(&index, "zzz", None, 5).is_empty());
    assert_eq!(search(&index, "issue", None, 1).len(), 1);
}

#[test]
fn scores_add_up_over_words_case_insensitively() {
    let index = vec![(
        "s".to_string(),
        vec![
            t("only_desc", "Reads a FILE"),        // 1 + 1 = 2
            t("read_file", "reads a file"),        // 2 + 1 + 2 + 1 = 6
            t("file_tool", "nothing"),              // 2, tied: index order
            t("other", "unrelated"),                // 0
        ],
    )];
    let hits = search(&index, "  READ\tfile ", None, 10);
    let names: Vec<&str> = hits.iter().map(|(_, t)| t.name.as_str()).collect();
    assert_eq!(names, vec!["read_file", "only_desc", "file_tool"]);
}

#[test]
fn equal_scores_keep_index_order() {
    let index = vec![
        ("b".to_string(), vec![t("x_one", "")]),
        ("a".to_string(), vec![t("x_two", ""), t("x_three", "")]),
    ];
    let hits = search(&index, "x", None, 10);
    let got: Vec<(String, String)> = hits.into_iter().map(|(s, t)| (s, t.name)).collect();
    assert_eq!(
        got,
        vec![
            ("b".to_string(), "x_one".to_string()),
            ("a".to_string(), "x_two".to_string()),
            ("a".to_string(), "x_three".to_string()),
        ]
    );
}

#[test]
fn empty_query_and_zero_limit_find_nothing() {
    let index = vec![("s".to_string(), vec![t("a", "b")])];
    assert!(search(&index, "   ", None, 5).is_empty());
    assert!(search(&index, "a", None, 0).is_empty());
    assert!(search(&index, "a", Some("nope"), 5).is_empty());
}

#[test]
fn missing_description_counts_as_empty() {
    let mut tool = t("alpha", "");
    tool.description = None;
    let index = vec![("s".to_string(), vec![tool])];
    assert_eq!(search(&index, "alp", None, 5).len(), 1);
    assert!(search(&index, "zzz", None, 5).is_empty());
}

#[test]
fn ascii_matching_ignores_case() {
    let index = vec![
        ("github".to_string(), vec![t("create_issue", "Open a new Issue"), t("delete_repo", "Remove")]),
        ("slack".to_string(), vec![t("Post_Message", "Send a message")]),
    ];
    for q in ["issue message", "Repo", "open new"] {
        let upper = q.to_ascii_uppercase();
        let a = search(&index, q, None, 10);
        let b = search(&index, &upper, None, 10);
        let names_a: Vec<&str> = a.iter().map(|(_, t)| t.name.as_str()).collect();
        let names_b: Vec<&str> = b.iter().map(|(_, t)| t.name.as_str()).collect();
        assert_eq!(names_a, names_b);
        assert!(!names_a.is_empty());
    }
}

#[test]
fn empty_query_or_zero_limit_finds_nothing() {
    let index = vec![("s".to_string(), vec![t("a", "b")])];
    assert!(search(&index, "   ", None, 5).is_empty());
    assert!(search(&index, "", None, 5).is_empty());
    assert!(search(&index, "a", None, 0).is_empty());
}

#[test]
fn server_filter_is_searching_that_server_alone() {
    let index = vec![
        ("a".to_string(), vec![t("issue_one", "x")]),
        ("b".to_string(), vec![t("issue_two", "issue")]),
        ("a".to_string(), vec![t("issue_three", "issue")]),
    ];
    let filtered: Vec<(String, Vec<ToolInfo>)> =
        index.iter().filter(|(n, _)| n == "a").map(|(n, ts)| (n.clone(), ts.clone())).collect();
    let r1 = search(&index, "issue", Some("a"), 10);
    let r2 = search(&filtered, "issue", None, 10);
    let n1: Vec<(String, String)> = r1.iter().map(|(s, t)| (s.clone(), t.name.clone())).collect();
    let n2: Vec<(String, String)> = r2.iter().map(|(s, t)| (s.clone(), t.name.clone())).collect();
    assert_eq!(n1, n2);
    assert_eq!(n1, vec![("a".to_string(), "issue_three".to_string()), ("a".to_string(), "issue_one".to_string())]);
}
