use mcp_multiplexer::stats::{report, report_fits_exec, StatsData};

#[test]
fn counters_count() {
    let mut s = StatsData::new();
    s.record_meta("search_tools");
    s.record_meta("search_tools");
    s.record_meta("list_tools");
    s.record_served(500);
    s.record_proxied();
    assert_eq!(s.meta_calls.get("search_tools"), Some(&2));
    assert_eq!(s.meta_calls.get("list_tools"), Some(&1));
    assert_eq!(s.schema_bytes_served, 500);
    assert_eq!(s.tool_calls_proxied, 1);
}

#[test]
fn report_without_index() {
    let s = StatsData::new();
    assert!(report_fits_exec(&vec![], &s));
    assert_eq!(
        report(&vec![], &s),
        "mcp-multiplexer stats\n\nNo cached index yet \u{2014} start the mux once to build it.\n\nOn-demand schemas served: ~0 tokens\nTool calls proxied: 0\nMeta-tool calls: 0\n\nTokens ~ bytes/4 (heuristic, not a real tokenizer).\n"
    );
}

#[test]
fn report_with_index_and_calls() {
    let mut s = StatsData::new();
    s.meta_bytes = 553 * 4;
    s.record_meta("search_tools");
    s.record_meta("list_tools");
    s.record_meta("list_tools");
    s.record_served(4000);
    s.record_proxied();
    s.record_proxied();
    let sizes = vec![40000, 25332];
    assert!(report_fits_exec(&sizes, &s));
    let withheld: u64 = 65332;
    let saved = withheld - 553 * 4;
    let pct = saved * 100 / withheld;
    assert_eq!(
        report(&sizes, &s),
        format!(
            "mcp-multiplexer stats\n\nStartup context per session:\n  without mux: ~{} tokens (2 tools)\n  with mux:    ~553 tokens (meta-tools)\n  saved:       ~{} tokens ({}%)\n\nOn-demand schemas served: ~1000 tokens\nTool calls proxied: 2\nMeta-tool calls: 3\n  list_tools: 2\n  search_tools: 1\n\nTokens ~ bytes/4 (heuristic, not a real tokenizer).\n",
            withheld / 4,
            saved / 4,
            pct
        )
    );
}

#[test]
fn savings_never_go_negative() {
    let mut s = StatsData::new();
    s.meta_bytes = 1000;
    let r = report(&vec![10], &s);
    assert!(r.contains("saved:       ~0 tokens (0%)"), "{r}");
    assert!(!report_fits_exec(&vec![u64::MAX, 1], &s));
}
