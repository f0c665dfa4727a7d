//! The decisions behind the meta-tools: routing `server__tool` names,
//! choosing the servers a request covers, refusing blocked and unknown
//! tools, and shaping the summaries that are returned.
use crate::config::{allowed, Config, ServerConfig};
use crate::model::{clone_opt_string, ToolInfo};
use crate::names::{has_name, lookup};
use crate::text::{chars_lt, chars_of, compare_str, concat2, concat3, debug_quoted, debug_str, is_prefix, starts_with, str_eq, Order};
use vstd::prelude::*;
use vstd::string::*;

verus! {

// ---------------------------------------------------------------------------
// Exposed tools
// ---------------------------------------------------------------------------

/// The name under which an exposed server's tool is listed.
pub open spec fn exposed_name(server: Seq<char>, tool: Seq<char>) -> Seq<char> {
    server + "__"@ + tool
}

/// The name an exposed tool is listed under: `server__tool`.
pub fn exposed_tool_name(server: &str, tool: &str) -> (r: String)
    ensures
        r@ == exposed_name(server@, tool@),
{
    concat3(server, "__", tool)
}

/// Server `i` exposes its tools and `name` starts with its `server__` prefix.
pub open spec fn routes_to(servers: Seq<(Seq<char>, crate::config::ServerConfig)>, name: Seq<char>, i: int) -> bool {
    &&& 0 <= i < servers.len()
    &&& servers[i].1.expose
    &&& is_prefix(servers[i].0 + "__"@, name)
}

/// `name` routes to server `i`: the exposing server with the longest
/// `server__` prefix of `name`.
pub open spec fn best_route(servers: Seq<(Seq<char>, crate::config::ServerConfig)>, name: Seq<char>, i: int) -> bool {
    &&& routes_to(servers, name, i)
    &&& forall|j: int| #[trigger] routes_to(servers, name, j) ==> servers[j].0.len() <= servers[i].0.len()
}

/// Splits a `server__tool` name into (server, tool) by the longest matching
/// prefix among the servers that expose their tools — server names may
/// themselves contain `__`.
pub fn route_exposed<'a, 'n>(cfg: &'a Config, name: &'n str) -> (r: Option<(&'a str, &'n str)>)
    ensures
        match r {
            Some((server, tool)) => exists|i: int|
                #[trigger] best_route(cfg.mcp_servers@, name@, i) && server@ == cfg.mcp_servers@[i].0
                    && name@ == exposed_name(server@, tool@),
            None => forall|i: int| !#[trigger] routes_to(cfg.mcp_servers@, name@, i),
        },
{
    let ghost servers = cfg.mcp_servers@;
    let n = cfg.mcp_servers.len();
    let mut best: Option<(usize, usize)> = None;
    let mut i: usize = 0;
    while i < n
        invariant
            servers == cfg.mcp_servers@,
            n == servers.len(),
            i <= n,
            match best {
                Some((b, blen)) => b < i && blen == servers[b as int].0.len() && routes_to(servers, name@, b as int)
                    && forall|j: int| 0 <= j < i && #[trigger] routes_to(servers, name@, j) ==> servers[j].0.len() <= blen,
                None => forall|j: int| 0 <= j < i ==> !#[trigger] routes_to(servers, name@, j),
            },
        decreases n - i,
    {
        if cfg.mcp_servers.value_at(i).expose {
            let server = cfg.mcp_servers.name_at(i);
            let prefix = concat2(server.as_str(), "__");
            if starts_with(name, prefix.as_str()) {
                let len = chars_of(server.as_str()).len();
                match best {
                    Some((b, blen)) => {
                        if len >= blen {
                            best = Some((i, len));
                        }
                    },
                    None => {
                        best = Some((i, len));
                    },
                }
            }
        }
        i = i + 1;
    }
    match best {
        Some((b, blen)) => {
            let server = cfg.mcp_servers.name_at(b).as_str();
            let total = chars_of(name).len();
            proof {
                assert(routes_to(servers, name@, b as int));
                assert((servers[b as int].0 + "__"@).len() == blen + 2) by {
                    reveal_strlit("__");
                }
            }
            let tool = name.substring_char(blen + 2, total);
            proof {
                let p = servers[b as int].0 + "__"@;
                reveal_strlit("__");
                assert(name@.subrange(0, p.len() as int) =~= p);
                assert(name@ =~= p + name@.subrange(blen + 2, total as int));
                assert(best_route(servers, name@, b as int));
            }
            Some((server, tool))
        },
        None => None,
    }
}

/// Routing an exposed tool's listed name leads back to its server and tool,
/// unless an exposing server with a longer name also prefixes it.
pub proof fn exposed_name_routes_back(
    servers: Seq<(Seq<char>, crate::config::ServerConfig)>,
    i: int,
    tool: Seq<char>,
)
    requires
        crate::names::ascending(servers),
        0 <= i < servers.len(),
        servers[i].1.expose,
        forall|j: int|
            #[trigger] routes_to(servers, exposed_name(servers[i].0, tool), j) ==> servers[j].0.len()
                <= servers[i].0.len(),
    ensures
        best_route(servers, exposed_name(servers[i].0, tool), i),
        forall|j: int|
            #[trigger] best_route(servers, exposed_name(servers[i].0, tool), j) ==> j == i,
{
    let name = exposed_name(servers[i].0, tool);
    let p = servers[i].0 + "__"@;
    assert(name.subrange(0, p.len() as int) =~= p);
    assert(routes_to(servers, name, i));
    assert forall|j: int| #[trigger] best_route(servers, name, j) implies j == i by {
        let q = servers[j].0 + "__"@;
        assert(servers[j].0.len() == servers[i].0.len());
        assert(name.subrange(0, q.len() as int) =~= q);
        assert forall|k: int| 0 <= k < servers[i].0.len() implies servers[j].0[k] == servers[i].0[k] by {
            assert(q[k] == name[k]);
            assert(p[k] == name[k]);
        }
        assert(servers[j].0 =~= servers[i].0);
        if j != i {
            if j < i {
                assert(chars_lt(servers[j].0, servers[i].0));
            } else {
                assert(chars_lt(servers[i].0, servers[j].0));
            }
            crate::names::lemma_lt_irreflexive(servers[i].0);
        }
    }
}

// ---------------------------------------------------------------------------
// Errors
// ---------------------------------------------------------------------------

/// Names joined with `sep` between them.
pub open spec fn joined(names: Seq<Seq<char>>, sep: Seq<char>) -> Seq<char>
    decreases names.len(),
{
    if names.len() == 0 {
        Seq::empty()
    } else if names.len() == 1 {
        names[0]
    } else {
        joined(names.drop_last(), sep) + sep + names.last()
    }
}

/// The views of a list of strings.
pub open spec fn string_views(v: Seq<String>) -> Seq<Seq<char>> {
    v.map_values(|s: String| s@)
}

/// `names` joined with `sep` between them.
pub fn join(names: &Vec<String>, sep: &str) -> (r: String)
    ensures
        r@ == joined(string_views(names@), sep@),
{
    let ghost vs = string_views(names@);
    let mut r = String::new();
    let mut i: usize = 0;
    while i < names.len()
        invariant
            i <= names@.len(),
            vs == string_views(names@),
            r@ == joined(vs.take(i as int), sep@),
        decreases names.len() - i,
    {
        proof {
            assert(vs.take(i + 1).drop_last() =~= vs.take(i as int));
            assert(vs.take(i + 1).last() == names@[i as int]@);
        }
        if i > 0 {
            r.append(sep);
        } else {
            assert(vs.take(0) =~= Seq::<Seq<char>>::empty());
        }
        r.append(names[i].as_str());
        i = i + 1;
    }
    assert(vs.take(vs.len() as int) =~= vs);
    r
}

/// Why a meta-tool request is refused.
pub enum ServerError {
    /// No configured server has this name.
    UnknownServer { name: String, available: Vec<String> },
    /// The server's allow/deny rules hide the tool.
    Blocked { tool: String, server: String },
    /// The server has no tool of this name.
    UnknownTool { tool: String, server: String },
    /// The server is not configured for OAuth.
    NoOAuth { server: String },
}

impl ServerError {
    /// The message the error carries.
    pub open spec fn message_spec(&self) -> Seq<char> {
        match self {
            ServerError::UnknownServer { name, available } => "unknown server "@ + debug_str(name@)
                + "; available: "@ + joined(string_views(available@), ", "@),
            ServerError::Blocked { tool, server } => "tool "@ + debug_str(tool@) + " on server "@
                + debug_str(server@) + " is blocked by config"@,
            ServerError::UnknownTool { tool, server } => "unknown tool "@ + debug_str(tool@)
                + " on server "@ + debug_str(server@),
            ServerError::NoOAuth { server } => "server "@ + debug_str(server@)
                + " does not have \"oauth\": true in the config"@,
        }
    }

    /// The error's message.
    pub fn message(&self) -> (m: String)
        ensures
            m@ == self.message_spec(),
    {
        match self {
            ServerError::UnknownServer { name, available } => {
                let q = debug_quoted(name.as_str());
                let list = join(available, ", ");
                let head = concat3("unknown server ", q.as_str(), "; available: ");
                concat2(head.as_str(), list.as_str())
            },
            ServerError::Blocked { tool, server } => {
                let qt = debug_quoted(tool.as_str());
                let qs = debug_quoted(server.as_str());
                let head = concat3("tool ", qt.as_str(), " on server ");
                concat3(head.as_str(), qs.as_str(), " is blocked by config")
            },
            ServerError::UnknownTool { tool, server } => {
                let qt = debug_quoted(tool.as_str());
                let qs = debug_quoted(server.as_str());
                let head = concat3("unknown tool ", qt.as_str(), " on server ");
                concat2(head.as_str(), qs.as_str())
            },
            ServerError::NoOAuth { server } => {
                let qs = debug_quoted(server.as_str());
                concat3("server ", qs.as_str(), " does not have \"oauth\": true in the config")
            },
        }
    }
}

// ---------------------------------------------------------------------------
// Choosing servers and tools
// ---------------------------------------------------------------------------

/// OAuth requests are for servers configured with `"oauth": true` only.
pub fn check_oauth(cfg: &ServerConfig, server: &str) -> (r: Result<(), ServerError>)
    ensures
        cfg.oauth <==> r is Ok,
        r matches Err(e) ==> (e matches ServerError::NoOAuth { server: s } && s@ == server@),
{
    if cfg.oauth {
        Ok(())
    } else {
        Err(ServerError::NoOAuth { server: server.to_string() })
    }
}

/// The servers a request covers: the one it names, which must be known, or
/// all of them.
pub fn select_servers(names: &Vec<String>, server: Option<&str>) -> (r: Result<Vec<String>, ServerError>)
    ensures
        server is None ==> (r matches Ok(v) && v@ == names@),
        server is Some && string_views(names@).contains(server->0@) ==> (r matches Ok(v) && v@.len()
            == 1 && v@[0]@ == server->0@),
        server is Some && !string_views(names@).contains(server->0@) ==> (r matches Err(
            ServerError::UnknownServer { name, available },
        ) && name@ == server->0@ && available@ == names@),
{
    match server {
        None => Ok(crate::config::clone_strings(names)),
        Some(s) => {
            let mut i: usize = 0;
            while i < names.len()
                invariant
                    server == Some(s),
                    i <= names@.len(),
                    forall|j: int| 0 <= j < i ==> names@[j]@ != s@,
                decreases names.len() - i,
            {
                if str_eq(names[i].as_str(), s) {
                    let mut v: Vec<String> = Vec::new();
                    v.push(s.to_string());
                    assert(string_views(names@)[i as int] == s@);
                    return Ok(v);
                }
                i = i + 1;
            }
            assert(!string_views(names@).contains(s@)) by {
                if string_views(names@).contains(s@) {
                    let j = choose|j: int| 0 <= j < names@.len() && string_views(names@)[j] == s@;
                    assert(names@[j]@ == s@);
                }
            }
            Err(ServerError::UnknownServer { name: s.to_string(), available: crate::config::clone_strings(names) })
        },
    }
}

/// Refuses a tool that a configured server's allow/deny rules hide; a server
/// that is not configured refuses nothing here.
pub fn check_not_blocked(cfg: &Config, server: &str, tool: &str) -> (r: Result<(), ServerError>)
    ensures
        match lookup(cfg.mcp_servers@, server@) {
            Some(sc) => if allowed(sc, tool@) {
                r is Ok
            } else {
                r matches Err(ServerError::Blocked { tool: t, server: s }) && t@ == tool@ && s@ == server@
            },
            None => r is Ok,
        },
{
    match cfg.mcp_servers.get(server) {
        Some(sc) => {
            if sc.is_allowed(tool) {
                Ok(())
            } else {
                Err(ServerError::Blocked { tool: tool.to_string(), server: server.to_string() })
            }
        },
        None => Ok(()),
    }
}

/// The first tool of `tools` named `tool`.
pub fn find_tool(tools: Vec<ToolInfo>, server: &str, tool: &str) -> (r: Result<ToolInfo, ServerError>)
    ensures
        match r {
            Ok(t) => exists|i: int|
                0 <= i < tools@.len() && t == tools@[i] && t.name@ == tool@ && forall|j: int|
                    0 <= j < i ==> (#[trigger] tools@[j]).name@ != tool@,
            Err(e) => (forall|i: int| 0 <= i < tools@.len() ==> (#[trigger] tools@[i]).name@ != tool@)
                && (e matches ServerError::UnknownTool { tool: t, server: s } && t@ == tool@ && s@ == server@),
        },
{
    let ghost ts = tools@;
    let mut i: usize = 0;
    while i < tools.len()
        invariant
            ts == tools@,
            i <= tools@.len(),
            forall|j: int| 0 <= j < i ==> (#[trigger] tools@[j]).name@ != tool@,
        decreases tools.len() - i,
    {
        if str_eq(tools[i].name.as_str(), tool) {
            let t = tools[i].duplicate();
            return Ok(t);
        }
        i = i + 1;
    }
    Err(ServerError::UnknownTool { tool: tool.to_string(), server: server.to_string() })
}

/// How many matches a search returns: the requested number (5 when not
/// given), at most 25.
pub fn effective_limit(limit: Option<usize>) -> (n: usize)
    ensures
        n == match limit {
            Some(l) => if l < 25 {
                l
            } else {
                25
            },
            None => 5,
        },
{
    let l = match limit {
        Some(l) => l,
        None => 5,
    };
    if l < 25 {
        l
    } else {
        25
    }
}

// ---------------------------------------------------------------------------
// Summaries
// ---------------------------------------------------------------------------

/// One server in the `list_servers` overview.
pub struct ServerSummary {
    pub name: String,
    pub status: String,
    pub tool_count: usize,
    pub instructions: Option<String>,
}

/// One tool in a `list_tools` answer: no schema.
pub struct ToolSummary {
    pub name: String,
    pub description: Option<String>,
    pub annotations: Option<serde_json::Value>,
}

/// The summaries of `tools`, in order: name, description and annotations,
/// without the schema.
pub fn summarize_tools(tools: Vec<ToolInfo>) -> (r: Vec<ToolSummary>)
    ensures
        r@.len() == tools@.len(),
        forall|i: int|
            0 <= i < tools@.len() ==> (#[trigger] r@[i]).name == tools@[i].name && r@[i].description
                == tools@[i].description && r@[i].annotations == tools@[i].annotations,
{
    let ghost ts = tools@;
    let mut r: Vec<ToolSummary> = Vec::new();
    for t in it: tools
        invariant
            it.seq() == ts,
            r@.len() == it.index(),
            forall|i: int|
                0 <= i < it.index() ==> (#[trigger] r@[i]).name == ts[i].name && r@[i].description
                    == ts[i].description && r@[i].annotations == ts[i].annotations,
    {
        let ToolInfo { name, description, schema: _, annotations } = t;
        r.push(ToolSummary { name, description, annotations });
    }
    r
}

/// The outcome of refreshing one server.
pub struct RefreshResult {
    pub name: String,
    pub status: String,
    pub tool_count: Option<usize>,
    pub error: Option<String>,
}

impl RefreshResult {
    /// A refresh that succeeded with `tool_count` tools indexed.
    pub fn ok(name: String, tool_count: usize) -> (r: RefreshResult)
        ensures
            r.name == name,
            r.status@ == "ok"@,
            r.tool_count == Some(tool_count),
            r.error is None,
    {
        RefreshResult { name, status: "ok".to_string(), tool_count: Some(tool_count), error: None }
    }

    /// A refresh that failed with `error`.
    pub fn failed(name: String, error: String) -> (r: RefreshResult)
        ensures
            r.name == name,
            r.status@ == "error"@,
            r.tool_count is None,
            r.error == Some(error),
    {
        RefreshResult { name, status: "error".to_string(), tool_count: None, error: Some(error) }
    }
}

/// Names never decrease along `s`.
pub open spec fn names_ascend(s: Seq<RefreshResult>) -> bool {
    forall|a: int, b: int| 0 <= a < b < s.len() ==> !chars_lt((#[trigger] s[b]).name@, (#[trigger] s[a]).name@)
}

/// `r` placed into `s` after every entry whose name is not greater.
pub open spec fn insert_by_name(s: Seq<RefreshResult>, r: RefreshResult) -> Seq<RefreshResult>
    decreases s.len(),
{
    if s.len() == 0 {
        seq![r]
    } else if chars_lt(r.name@, s[0].name@) {
        seq![r] + s
    } else {
        seq![s[0]] + insert_by_name(s.drop_first(), r)
    }
}

/// The results sorted by name, equal names keeping their order.
pub open spec fn sort_by_name(s: Seq<RefreshResult>) -> Seq<RefreshResult>
    decreases s.len(),
{
    if s.len() == 0 {
        Seq::empty()
    } else {
        insert_by_name(sort_by_name(s.drop_last()), s.last())
    }
}

/// Inserting at the first position with a greater name is `insert_by_name`.
proof fn lemma_insert_by_name_at(s: Seq<RefreshResult>, r: RefreshResult, p: int)
    requires
        0 <= p <= s.len(),
        forall|k: int| 0 <= k < p ==> !chars_lt(r.name@, (#[trigger] s[k]).name@),
        p == s.len() || chars_lt(r.name@, s[p].name@),
    ensures
        insert_by_name(s, r) == s.insert(p, r),
    decreases p,
{
    if s.len() == 0 {
        assert(s.insert(p, r) =~= seq![r]);
    } else if p == 0 {
        assert(s.insert(p, r) =~= seq![r] + s);
    } else {
        let t = s.drop_first();
        assert forall|k: int| 0 <= k < p - 1 implies !chars_lt(r.name@, (#[trigger] t[k]).name@) by {
            assert(t[k] == s[k + 1]);
        }
        lemma_insert_by_name_at(t, r, p - 1);
        assert(s.insert(p, r) =~= seq![s[0]] + t.insert(p - 1, r));
    }
}

/// The refresh results sorted by server name.
pub fn sort_results(results: Vec<RefreshResult>) -> (r: Vec<RefreshResult>)
    ensures
        r@ == sort_by_name(results@),
{
    let ghost rs = results@;
    let mut out: Vec<RefreshResult> = Vec::new();
    for x in it: results
        invariant
            it.seq() == rs,
            out@ == sort_by_name(rs.take(it.index() as int)),
    {
        let ghost k = it.index() as int;
        let mut p: usize = 0;
        while p < out.len() && !(compare_str(x.name.as_str(), out[p].name.as_str()) == Order::Less)
            invariant
                p <= out@.len(),
                forall|m: int| 0 <= m < p ==> !chars_lt(x.name@, (#[trigger] out@[m]).name@),
            decreases out.len() - p,
        {
            p = p + 1;
        }
        proof {
            lemma_insert_by_name_at(out@, x, p as int);
            assert(rs.take(k + 1).drop_last() =~= rs.take(k));
            assert(rs.take(k + 1).last() == x);
        }
        out.insert(p, x);
    }
    assert(rs.take(rs.len() as int) =~= rs);
    out
}

/// Inserting by name into a sequence sorted by name keeps it sorted.
proof fn lemma_insert_by_name_sorted(s: Seq<RefreshResult>, r: RefreshResult)
    requires
        names_ascend(s),
    ensures
        names_ascend(insert_by_name(s, r)),
        forall|x: RefreshResult| #[trigger] insert_by_name(s, r).contains(x) <==> (s.contains(x) || x == r),
        insert_by_name(s, r).len() == s.len() + 1,
    decreases s.len(),
{
    if s.len() == 0 {
        assert(insert_by_name(s, r) =~= seq![r]);
        assert forall|x: RefreshResult| #[trigger] insert_by_name(s, r).contains(x) <==> (s.contains(x) || x == r) by {
            if x == r {
                assert(insert_by_name(s, r)[0] == r);
            }
        }
    } else if chars_lt(r.name@, s[0].name@) {
        let out = seq![r] + s;
        assert(insert_by_name(s, r) == out);
        assert forall|a: int, b: int| 0 <= a < b < out.len() implies !chars_lt((#[trigger] out[b]).name@, (#[trigger] out[a]).name@) by {
            if a == 0 {
                assert(out[b] == s[b - 1]);
                if chars_lt(s[b - 1].name@, r.name@) {
                    if b - 1 == 0 {
                        crate::names::lemma_lt_transitive(r.name@, s[0].name@, r.name@);
                    } else {
                        if chars_lt(s[b - 1].name@, s[0].name@) {
                        } else if s[b - 1].name@ == s[0].name@ {
                            crate::names::lemma_lt_transitive(r.name@, s[0].name@, r.name@);
                        } else {
                            crate::names::lemma_lt_total(s[b - 1].name@, s[0].name@);
                            crate::names::lemma_lt_transitive(r.name@, s[0].name@, s[b - 1].name@);
                            crate::names::lemma_lt_transitive(r.name@, s[b - 1].name@, r.name@);
                        }
                        crate::names::lemma_lt_irreflexive(r.name@);
                    }
                    crate::names::lemma_lt_irreflexive(r.name@);
                }
            } else {
                assert(out[a] == s[a - 1] && out[b] == s[b - 1]);
            }
        }
        assert forall|x: RefreshResult| #[trigger] out.contains(x) <==> (s.contains(x) || x == r) by {
            if out.contains(x) {
                let k = choose|k: int| 0 <= k < out.len() && out[k] == x;
                if k > 0 {
                    assert(s[k - 1] == x);
                }
            }
            if s.contains(x) {
                let k = choose|k: int| 0 <= k < s.len() && s[k] == x;
                assert(out[k + 1] == x);
            }
            if x == r {
                assert(out[0] == r);
            }
        }
    } else {
        let t = s.drop_first();
        assert forall|a: int, b: int| 0 <= a < b < t.len() implies !chars_lt((#[trigger] t[b]).name@, (#[trigger] t[a]).name@) by {
            assert(t[a] == s[a + 1] && t[b] == s[b + 1]);
        }
        lemma_insert_by_name_sorted(t, r);
        let it = insert_by_name(t, r);
        let out = seq![s[0]] + it;
        assert(insert_by_name(s, r) == out);
        assert forall|a: int, b: int| 0 <= a < b < out.len() implies !chars_lt((#[trigger] out[b]).name@, (#[trigger] out[a]).name@) by {
            if a == 0 {
                assert(out[b] == it[b - 1]);
                assert(it.contains(it[b - 1]));
                if t.contains(it[b - 1]) {
                    let m = choose|m: int| 0 <= m < t.len() && t[m] == it[b - 1];
                    assert(s[m + 1] == t[m]);
                }
            } else {
                assert(out[a] == it[a - 1] && out[b] == it[b - 1]);
            }
        }
        assert forall|x: RefreshResult| #[trigger] out.contains(x) <==> (s.contains(x) || x == r) by {
            if out.contains(x) {
                let k = choose|k: int| 0 <= k < out.len() && out[k] == x;
                if k == 0 {
                    assert(s[0] == x);
                } else {
                    assert(it[k - 1] == x);
                    assert(it.contains(x));
                    if t.contains(x) {
                        let m = choose|m: int| 0 <= m < t.len() && t[m] == x;
                        assert(s[m + 1] == x);
                    }
                }
            }
            if s.contains(x) {
                let k = choose|k: int| 0 <= k < s.len() && s[k] == x;
                if k == 0 {
                    assert(out[0] == x);
                } else {
                    assert(t[k - 1] == x);
                    assert(it.contains(x));
                    let m = choose|m: int| 0 <= m < it.len() && it[m] == x;
                    assert(out[m + 1] == x);
                }
            }
            if x == r {
                assert(it.contains(r));
                let m = choose|m: int| 0 <= m < it.len() && it[m] == r;
                assert(out[m + 1] == r);
            }
        }
    }
}

/// Sorting refresh results orders them by name, and keeps exactly the
/// results given.
pub proof fn sort_results_law(s: Seq<RefreshResult>)
    ensures
        names_ascend(sort_by_name(s)),
        sort_by_name(s).len() == s.len(),
        forall|x: RefreshResult| #[trigger] sort_by_name(s).contains(x) <==> s.contains(x),
    decreases s.len(),
{
    if s.len() > 0 {
        let t = s.drop_last();
        sort_results_law(t);
        lemma_insert_by_name_sorted(sort_by_name(t), s.last());
        assert forall|x: RefreshResult| #[trigger] sort_by_name(s).contains(x) <==> s.contains(x) by {
            if t.contains(x) {
                let k = choose|k: int| 0 <= k < t.len() && t[k] == x;
                assert(s[k] == x);
            }
            if s.contains(x) {
                let k = choose|k: int| 0 <= k < s.len() && s[k] == x;
                if k < s.len() - 1 {
                    assert(t[k] == x);
                }
            }
            if x == s.last() {
                assert(s[s.len() - 1] == x);
            }
        }
    }
}

} // verus!
