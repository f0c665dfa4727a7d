//! The multiplexer's configuration: the upstream servers, their tool
//! visibility rules, `${VAR}` expansion and the consistency checks.
use crate::names::{has_name, lookup, NameMap};
use crate::text::{
    chars_of, concat2, concat3, debug_quoted, debug_str, is_prefix, starts_with, str_eq,
};
use vstd::prelude::*;
use vstd::string::*;

verus! {

// ---------------------------------------------------------------------------
// Tool visibility
// ---------------------------------------------------------------------------

/// A pattern matches a name: `prefix*` matches every name that starts with
/// `prefix`; any other pattern matches only the name equal to it.
pub open spec fn glob_matches(pat: Seq<char>, name: Seq<char>) -> bool {
    if pat.len() > 0 && pat.last() == '*' {
        is_prefix(pat.drop_last(), name)
    } else {
        pat == name
    }
}

/// Some pattern of `pats` matches `name`.
pub open spec fn any_matches(pats: Seq<String>, name: Seq<char>) -> bool {
    exists|i: int| 0 <= i < pats.len() && glob_matches(#[trigger] pats[i]@, name)
}

/// Whether `pat` (an exact name or a `prefix*` glob) matches `name`.
pub fn glob_match(pat: &str, name: &str) -> (r: bool)
    ensures
        r == glob_matches(pat@, name@),
{
    let cs = chars_of(pat);
    let n = cs.len();
    if n > 0 && cs[n - 1] == '*' {
        let prefix = pat.substring_char(0, n - 1);
        assert(prefix@ =~= pat@.drop_last());
        starts_with(name, prefix)
    } else {
        str_eq(pat, name)
    }
}

/// Whether some pattern of `pats` matches `name`.
fn any_match(pats: &Vec<String>, name: &str) -> (r: bool)
    ensures
        r == any_matches(pats@, name@),
{
    let mut i: usize = 0;
    while i < pats.len()
        invariant
            i <= pats.len(),
            forall|j: int| 0 <= j < i ==> !glob_matches(#[trigger] pats@[j]@, name@),
        decreases pats.len() - i,
    {
        if glob_match(pats[i].as_str(), name) {
            return true;
        }
        i = i + 1;
    }
    false
}

// ---------------------------------------------------------------------------
// `${VAR}` expansion
// ---------------------------------------------------------------------------

/// The first position at or after `from` where `${` starts, or -1.
pub open spec fn find_open(s: Seq<char>, from: int) -> int
    decreases s.len() - from,
{
    if from < 0 || from + 1 >= s.len() {
        -1
    } else if s[from] == '$' && s[from + 1] == '{' {
        from
    } else {
        find_open(s, from + 1)
    }
}

/// The first position at or after `from` that holds `c`, or -1.
pub open spec fn find_char(s: Seq<char>, from: int, c: char) -> int
    decreases s.len() - from,
{
    if from < 0 || from >= s.len() {
        -1
    } else if s[from] == c {
        from
    } else {
        find_char(s, from + 1, c)
    }
}

/// `find_char` gives -1 or a position in range holding `c`.
pub proof fn lemma_find_char(s: Seq<char>, from: int, c: char)
    ensures
        find_char(s, from, c) == -1 || (from <= find_char(s, from, c) < s.len() && s[find_char(
            s,
            from,
            c,
        )] == c),
    decreases s.len() - from,
{
    if from < 0 || from >= s.len() {
    } else if s[from] == c {
    } else {
        lemma_find_char(s, from + 1, c);
    }
}

/// `find_open` gives -1 or a position in range where `${` starts.
pub proof fn lemma_find_open(s: Seq<char>, from: int)
    ensures
        find_open(s, from) == -1 || (from <= find_open(s, from) && find_open(s, from) + 1 < s.len()
            && s[find_open(s, from)] == '$' && s[find_open(s, from) + 1] == '{'),
    decreases s.len() - from,
{
    if from < 0 || from + 1 >= s.len() {
    } else if s[from] == '$' && s[from + 1] == '{' {
    } else {
        lemma_find_open(s, from + 1);
    }
}

/// Why an expansion fails.
pub enum ExpandFault {
    /// A `${` with no `}` after it.
    Unclosed,
    /// A referenced variable that the environment does not hold.
    Unset(Seq<char>),
}

/// The expansion of `s` from position `pos` on: each `${NAME}` is replaced by
/// the value of `NAME` in `env`.
pub open spec fn expand_from(s: Seq<char>, pos: int, env: Seq<(Seq<char>, String)>) -> Result<
    Seq<char>,
    ExpandFault,
>
    decreases s.len() - pos,
{
    if pos < 0 || pos > s.len() {
        Ok(Seq::empty())
    } else {
        let i = find_open(s, pos);
        if i < 0 {
            Ok(s.subrange(pos, s.len() as int))
        } else {
            let j = find_char(s, i + 2, '}');
            if j < 0 {
                Err(ExpandFault::Unclosed)
            } else {
                let var = s.subrange(i + 2, j);
                match lookup(env, var) {
                    None => Err(ExpandFault::Unset(var)),
                    Some(val) => {
                        proof {
                            lemma_find_open(s, pos);
                            lemma_find_char(s, i + 2, '}');
                        }
                        match expand_from(s, j + 1, env) {
                            Ok(rest) => Ok(s.subrange(pos, i) + val@ + rest),
                            Err(e) => Err(e),
                        }
                    },
                }
            }
        }
    }
}

/// The expansion of a whole string.
pub open spec fn expand_spec(s: Seq<char>, env: Seq<(Seq<char>, String)>) -> Result<
    Seq<char>,
    ExpandFault,
> {
    expand_from(s, 0, env)
}

/// `t` holds no `${`.
pub open spec fn no_open(t: Seq<char>) -> bool {
    forall|k: int| 0 <= k < t.len() - 1 ==> !(#[trigger] t[k] == '$' && t[k + 1] == '{')
}

/// `t` holds no `}`.
pub open spec fn no_close(t: Seq<char>) -> bool {
    forall|k: int| 0 <= k < t.len() ==> #[trigger] t[k] != '}'
}

/// Finding `${` in `pre + t` past `pre` is finding it in `t`.
proof fn lemma_find_open_shift(pre: Seq<char>, t: Seq<char>, k: int)
    requires
        0 <= k <= t.len(),
    ensures
        find_open(pre + t, pre.len() + k) == (if find_open(t, k) < 0 {
            -1
        } else {
            pre.len() + find_open(t, k)
        }),
    decreases t.len() - k,
{
    let u = pre + t;
    if k + 1 < t.len() {
        assert(u[pre.len() + k] == t[k] && u[pre.len() + k + 1] == t[k + 1]);
        if !(t[k] == '$' && t[k + 1] == '{') {
            lemma_find_open_shift(pre, t, k + 1);
        }
    }
}

/// Finding `c` in `pre + t` past `pre` is finding it in `t`.
proof fn lemma_find_char_shift(pre: Seq<char>, t: Seq<char>, k: int, c: char)
    requires
        0 <= k <= t.len(),
    ensures
        find_char(pre + t, pre.len() + k, c) == (if find_char(t, k, c) < 0 {
            -1
        } else {
            pre.len() + find_char(t, k, c)
        }),
    decreases t.len() - k,
{
    let u = pre + t;
    if k < t.len() {
        assert(u[pre.len() + k] == t[k]);
        if t[k] != c {
            lemma_find_char_shift(pre, t, k + 1, c);
        }
    }
}

/// Expanding `pre + t` past `pre` is expanding `t`.
proof fn lemma_expand_shift(pre: Seq<char>, t: Seq<char>, k: int, env: Seq<(Seq<char>, String)>)
    requires
        0 <= k <= t.len(),
    ensures
        expand_from(pre + t, pre.len() + k, env) == expand_from(t, k, env),
    decreases t.len() - k,
{
    let u = pre + t;
    lemma_find_open_shift(pre, t, k);
    lemma_find_open(t, k);
    let i = find_open(t, k);
    if i < 0 {
        assert(u.subrange(pre.len() + k, u.len() as int) =~= t.subrange(k, t.len() as int));
    } else {
        lemma_find_char_shift(pre, t, i + 2, '}');
        lemma_find_char(t, i + 2, '}');
        let j = find_char(t, i + 2, '}');
        if j >= 0 {
            assert(u.subrange(pre.len() + i + 2, pre.len() + j) =~= t.subrange(i + 2, j));
            assert(u.subrange(pre.len() + k, pre.len() + i) =~= t.subrange(k, i));
            lemma_expand_shift(pre, t, j + 1, env);
        }
    }
}

/// No `${` at positions `from..p`, and one at `p`: the search stops at `p`.
proof fn lemma_find_open_at(s: Seq<char>, from: int, p: int)
    requires
        0 <= from <= p,
        p + 1 < s.len(),
        s[p] == '$' && s[p + 1] == '{',
        forall|k: int| from <= k < p ==> !(#[trigger] s[k] == '$' && s[k + 1] == '{'),
    ensures
        find_open(s, from) == p,
    decreases p - from,
{
    if from < p {
        lemma_find_open_at(s, from + 1, p);
    }
}

/// No `${` at or after `from`: the search finds none.
proof fn lemma_find_open_none(s: Seq<char>, from: int)
    requires
        0 <= from,
        forall|k: int| from <= k < s.len() - 1 ==> !(#[trigger] s[k] == '$' && s[k + 1] == '{'),
    ensures
        find_open(s, from) == -1,
    decreases s.len() - from,
{
    if from + 1 < s.len() {
        lemma_find_open_none(s, from + 1);
    }
}

/// No `}` at positions `from..p`: the search for `}` passes them.
proof fn lemma_find_char_past(s: Seq<char>, from: int, p: int)
    requires
        0 <= from <= p <= s.len(),
        forall|k: int| from <= k < p ==> #[trigger] s[k] != '}',
    ensures
        find_char(s, from, '}') == find_char(s, p, '}'),
    decreases p - from,
{
    if from < p {
        lemma_find_char_past(s, from + 1, p);
    }
}

/// How `${NAME}` expansion reads a text, left to right:
/// - a text without `${` expands to itself;
/// - where the first `${` has no `}` after it, expansion fails as unclosed;
/// - where the first `${` opens `${NAME}`, the text up to it is kept, the
///   reference is replaced by `NAME`'s value (which is not scanned again),
///   and the rest is expanded on its own; when `NAME` is unset, expansion
///   fails naming it, before anything after the reference is looked at.
pub proof fn expand_law(
    plain: Seq<char>,
    name: Seq<char>,
    rest: Seq<char>,
    env: Seq<(Seq<char>, String)>,
)
    requires
        no_open(plain),
    ensures
        expand_spec(plain, env) == Ok::<Seq<char>, ExpandFault>(plain),
        no_close(name) ==> ({
            let s = plain + "${"@ + name + "}"@ + rest;
            match lookup(env, name) {
                Some(v) => expand_spec(s, env) == match expand_spec(rest, env) {
                    Ok(r) => Ok::<Seq<char>, ExpandFault>(plain + v@ + r),
                    Err(e) => Err(e),
                },
                None => expand_spec(s, env) == Err::<Seq<char>, ExpandFault>(ExpandFault::Unset(name)),
            }
        }),
        no_close(name) ==> expand_spec(plain + "${"@ + name, env) == Err::<Seq<char>, ExpandFault>(
            ExpandFault::Unclosed,
        ),
{
    reveal_strlit("${");
    reveal_strlit("}");
    lemma_find_open_none(plain, 0);
    assert(plain.subrange(0, plain.len() as int) =~= plain);
    if no_close(name) {
        let p = plain.len() as int;
        let s = plain + "${"@ + name + "}"@ + rest;
        assert(s[p] == '$' && s[p + 1] == '{');
        assert forall|k: int| 0 <= k < p implies !(#[trigger] s[k] == '$' && s[k + 1] == '{') by {
            assert(s[k] == plain[k]);
            if k + 1 < p {
                assert(s[k + 1] == plain[k + 1]);
            }
        }
        lemma_find_open_at(s, 0, p);
        let j = p + 2 + name.len();
        assert(s[j] == '}');
        assert forall|k: int| p + 2 <= k < j implies #[trigger] s[k] != '}' by {
            assert(s[k] == name[k - p - 2]);
        }
        lemma_find_char_past(s, p + 2, j);
        assert(s.subrange(p + 2, j) =~= name);
        assert(s.subrange(0, p) =~= plain);
        let pre = plain + "${"@ + name + "}"@;
        assert(s =~= pre + rest);
        assert(pre.len() == j + 1);
        lemma_expand_shift(pre, rest, 0, env);

        let s2 = plain + "${"@ + name;
        assert(s2[p] == '$' && s2[p + 1] == '{');
        assert forall|k: int| 0 <= k < p implies !(#[trigger] s2[k] == '$' && s2[k + 1] == '{') by {
            assert(s2[k] == plain[k]);
            if k + 1 < p {
                assert(s2[k + 1] == plain[k + 1]);
            }
        }
        lemma_find_open_at(s2, 0, p);
        assert forall|k: int| p + 2 <= k < s2.len() implies #[trigger] s2[k] != '}' by {
            assert(s2[k] == name[k - p - 2]);
        }
        lemma_find_char_past(s2, p + 2, s2.len() as int);
    }
}

/// Why expanding a config string failed.
pub enum ExpandError {
    /// `${` is never closed in `text`.
    Unclosed { text: String },
    /// `var` is referenced but not set.
    UnsetVar { var: String },
}

impl ExpandError {
    /// The fault this error reports.
    pub open spec fn fault(&self) -> ExpandFault {
        match self {
            ExpandError::Unclosed { .. } => ExpandFault::Unclosed,
            ExpandError::UnsetVar { var } => ExpandFault::Unset(var@),
        }
    }

    /// The error is what expanding `t` gives.
    pub open spec fn reports(&self, t: Seq<char>, env: Seq<(Seq<char>, String)>) -> bool {
        &&& expand_spec(t, env) == Err::<Seq<char>, ExpandFault>(self.fault())
        &&& (self matches ExpandError::Unclosed { text } ==> text@ == t)
    }

    /// The message the error carries.
    pub open spec fn message_spec(&self) -> Seq<char> {
        match self {
            ExpandError::Unclosed { text } => "unclosed \"${\" in "@ + debug_str(text@),
            ExpandError::UnsetVar { var } => "env var "@ + debug_str(var@)
                + " referenced in config is not set"@,
        }
    }

    /// The error's message.
    pub fn message(&self) -> (m: String)
        ensures
            m@ == self.message_spec(),
    {
        match self {
            ExpandError::Unclosed { text } => {
                let q = debug_quoted(text.as_str());
                concat2("unclosed \"${\" in ", q.as_str())
            },
            ExpandError::UnsetVar { var } => {
                let q = debug_quoted(var.as_str());
                concat3("env var ", q.as_str(), " referenced in config is not set")
            },
        }
    }
}

/// The first position at or after `from` where `${` starts.
fn find_open_exec(cs: &Vec<char>, from: usize) -> (r: Option<usize>)
    requires
        from <= cs.len(),
    ensures
        match r {
            Some(i) => find_open(cs@, from as int) == i as int,
            None => find_open(cs@, from as int) == -1,
        },
{
    let mut k = from;
    while k < cs.len() && k + 1 < cs.len()
        invariant
            from <= k <= cs.len(),
            find_open(cs@, from as int) == find_open(cs@, k as int),
        decreases cs.len() - k,
    {
        if cs[k] == '$' && cs[k + 1] == '{' {
            return Some(k);
        }
        k = k + 1;
    }
    None
}

/// The first position at or after `from` that holds `c`.
fn find_char_exec(cs: &Vec<char>, from: usize, c: char) -> (r: Option<usize>)
    requires
        from <= cs.len(),
    ensures
        match r {
            Some(i) => find_char(cs@, from as int, c) == i as int,
            None => find_char(cs@, from as int, c) == -1,
        },
{
    let mut k = from;
    while k < cs.len()
        invariant
            from <= k <= cs.len(),
            find_char(cs@, from as int, c) == find_char(cs@, k as int, c),
        decreases cs.len() - k,
    {
        if cs[k] == c {
            return Some(k);
        }
        k = k + 1;
    }
    None
}

/// `${VAR}` expansion of `s`, looking each `VAR` up in `env`. An unclosed
/// `${` or an unset variable is an error.
pub fn expand(s: &str, env: &NameMap<String>) -> (r: Result<String, ExpandError>)
    ensures
        match r {
            Ok(out) => expand_spec(s@, env@) == Ok::<Seq<char>, ExpandFault>(out@),
            Err(e) => e.reports(s@, env@),
        },
{
    let cs = chars_of(s);
    let n = cs.len();
    let mut out = String::new();
    let mut pos: usize = 0;
    loop
        invariant
            cs@ == s@,
            n == cs.len(),
            pos <= n,
            match expand_from(s@, pos as int, env@) {
                Ok(rest) => expand_spec(s@, env@) == Ok::<Seq<char>, ExpandFault>(out@ + rest),
                Err(e) => expand_spec(s@, env@) == Err::<Seq<char>, ExpandFault>(e),
            },
        decreases n - pos,
    {
        proof {
            lemma_find_open(s@, pos as int);
        }
        match find_open_exec(&cs, pos) {
            None => {
                out.append(s.substring_char(pos, n));
                return Ok(out);
            },
            Some(i) => {
                proof {
                    lemma_find_char(s@, i + 2, '}');
                }
                match find_char_exec(&cs, i + 2, '}') {
                    None => {
                        return Err(ExpandError::Unclosed { text: s.to_string() });
                    },
                    Some(j) => {
                        let var = s.substring_char(i + 2, j);
                        match env.get(var) {
                            None => {
                                return Err(ExpandError::UnsetVar { var: var.to_string() });
                            },
                            Some(val) => {
                                let ghost old_out = out@;
                                out.append(s.substring_char(pos, i));
                                out.append(val.as_str());
                                proof {
                                    match expand_from(s@, j + 1, env@) {
                                        Ok(rest) => {
                                            assert(old_out + (s@.subrange(pos as int, i as int)
                                                + val@ + rest) =~= out@ + rest);
                                        },
                                        Err(e) => {},
                                    }
                                }
                                pos = j + 1;
                            },
                        }
                    },
                }
            },
        }
    }
}

// ---------------------------------------------------------------------------
// Servers
// ---------------------------------------------------------------------------

/// One upstream server's configuration.
#[derive(Clone)]
pub struct ServerConfig {
    /// Program to spawn (a stdio server).
    pub command: Option<String>,
    pub args: Vec<String>,
    pub env: NameMap<String>,
    /// Endpoint of a remote (HTTP) server.
    pub url: Option<String>,
    pub headers: NameMap<String>,
    /// Connection and startup timeout in seconds (10 when unset).
    pub connect_timeout: Option<u64>,
    /// Bypass the meta-tools: expose this server's tools directly as server__tool
    pub expose: bool,
    /// If set, only these tools are visible (exact names or prefix* globs)
    pub allow: Option<Vec<String>>,
    /// Always hidden/blocked; wins over allow
    pub deny: Vec<String>,
    /// Enable OAuth 2.0 (PKCE) for this server — url servers only
    pub oauth: bool,
    /// Pre-registered OAuth client ID; dynamic registration is used when unset
    pub oauth_client_id: Option<String>,
    /// Scopes to request; server defaults when empty
    pub oauth_scopes: Vec<String>,
    /// Fixed port for the 127.0.0.1 callback listener, for providers that
    /// require an exact pre-registered redirect URI. Default: ephemeral port
    pub oauth_redirect_port: Option<u16>,
}

/// The tool is hidden by the deny list.
pub open spec fn denied(s: ServerConfig, tool: Seq<char>) -> bool {
    any_matches(s.deny@, tool)
}

/// The tool is visible: not denied, and matched by the allow list when there
/// is one.
pub open spec fn allowed(s: ServerConfig, tool: Seq<char>) -> bool {
    &&& !denied(s, tool)
    &&& match s.allow {
        Some(pats) => any_matches(pats@, tool),
        None => true,
    }
}

/// A denied tool is never visible, whatever the allow list says.
pub proof fn deny_wins_law(s: ServerConfig, tool: Seq<char>)
    requires
        denied(s, tool),
    ensures
        !allowed(s, tool),
{
}

/// With an allow list, a visible tool matches one of its patterns; without
/// one, exactly the tools that are not denied are visible.
pub proof fn allow_list_law(s: ServerConfig, tool: Seq<char>)
    ensures
        s.allow is Some && allowed(s, tool) ==> any_matches(s.allow->0@, tool),
        s.allow is None ==> (allowed(s, tool) <==> !denied(s, tool)),
{
}

/// A `prefix*` pattern matches exactly the names that start with `prefix`,
/// and any other pattern matches only itself.
pub proof fn glob_law(prefix: Seq<char>, pat: Seq<char>, name: Seq<char>)
    ensures
        glob_matches(prefix.push('*'), name) <==> is_prefix(prefix, name),
        (pat.len() == 0 || pat.last() != '*') ==> (glob_matches(pat, name) <==> pat == name),
{
    assert(prefix.push('*').drop_last() =~= prefix);
}

/// A deny pattern is a glob like an allow pattern: a tool is denied exactly
/// when some deny pattern matches it, so a `prefix*` deny pattern hides
/// every tool whose name starts with `prefix`, and an exact one hides only
/// that name.
pub proof fn deny_glob_law(s: ServerConfig, tool: Seq<char>, k: int, prefix: Seq<char>)
    ensures
        denied(s, tool) <==> exists|i: int| 0 <= i < s.deny@.len() && glob_matches(#[trigger] s.deny@[i]@, tool),
        0 <= k < s.deny@.len() && s.deny@[k]@ == prefix.push('*') && is_prefix(prefix, tool) ==> denied(s, tool)
            && !allowed(s, tool),
        0 <= k < s.deny@.len() && s.deny@[k]@ == tool ==> denied(s, tool) && !allowed(s, tool),
{
    glob_law(prefix, tool, tool);
    if 0 <= k < s.deny@.len() && s.deny@[k]@ == prefix.push('*') && is_prefix(prefix, tool) {
        assert(glob_matches(s.deny@[k]@, tool));
    }
    if 0 <= k < s.deny@.len() && s.deny@[k]@ == tool {
        if tool.len() > 0 && tool.last() == '*' {
            assert(is_prefix(tool.drop_last(), tool));
        }
        assert(glob_matches(s.deny@[k]@, tool));
    }
}

impl ServerConfig {
    /// A server with nothing set: no command, no url, empty lists and maps,
    /// every flag off.
    pub fn empty() -> (s: ServerConfig)
        ensures
            s.command is None,
            s.args@.len() == 0,
            s.env@.len() == 0,
            s.url is None,
            s.headers@.len() == 0,
            s.connect_timeout is None,
            !s.expose,
            s.allow is None,
            s.deny@.len() == 0,
            !s.oauth,
            s.oauth_client_id is None,
            s.oauth_scopes@.len() == 0,
            s.oauth_redirect_port is None,
    {
        ServerConfig {
            command: None,
            args: Vec::new(),
            env: NameMap::new(),
            url: None,
            headers: NameMap::new(),
            connect_timeout: None,
            expose: false,
            allow: None,
            deny: Vec::new(),
            oauth: false,
            oauth_client_id: None,
            oauth_scopes: Vec::new(),
            oauth_redirect_port: None,
        }
    }

    /// Whether a deny pattern matches `tool`.
    pub fn is_denied(&self, tool: &str) -> (r: bool)
        ensures
            r == denied(*self, tool@),
    {
        any_match(&self.deny, tool)
    }

    /// Whether `tool` is visible: not denied, and allowed when an allow list
    /// is set.
    pub fn is_allowed(&self, tool: &str) -> (r: bool)
        ensures
            r == allowed(*self, tool@),
    {
        if self.is_denied(tool) {
            return false;
        }
        match &self.allow {
            Some(pats) => any_match(pats, tool),
            None => true,
        }
    }
}

impl Default for ServerConfig {
    fn default() -> (s: ServerConfig)
        ensures
            s.command is None,
            s.args@.len() == 0,
            s.env@.len() == 0,
            s.url is None,
            s.headers@.len() == 0,
            s.connect_timeout is None,
            !s.expose,
            s.allow is None,
            s.deny@.len() == 0,
            !s.oauth,
            s.oauth_client_id is None,
            s.oauth_scopes@.len() == 0,
            s.oauth_redirect_port is None,
    {
        ServerConfig::empty()
    }
}

// ---------------------------------------------------------------------------
// The whole configuration
// ---------------------------------------------------------------------------

/// What is inconsistent about one server's configuration.
#[derive(PartialEq, Eq, Structural, Clone, Copy, Debug)]
pub enum Problem {
    /// Neither `command` nor `url` is set.
    MissingTransport,
    /// Both `command` and `url` are set.
    BothTransports,
    /// OAuth options on a `command` server.
    OAuthNeedsUrl,
    /// `oauth_*` options without `"oauth": true`.
    OAuthOptionsNeedOAuth,
}

/// Some `oauth_*` option is set.
pub open spec fn has_oauth_options(s: ServerConfig) -> bool {
    s.oauth_client_id is Some || s.oauth_scopes@.len() > 0 || s.oauth_redirect_port is Some
}

/// The first check that `s` fails, in the order the checks are made.
pub open spec fn server_problem(s: ServerConfig) -> Option<Problem> {
    if s.command is None && s.url is None {
        Some(Problem::MissingTransport)
    } else if s.command is Some && s.url is Some {
        Some(Problem::BothTransports)
    } else if s.command is Some && (s.oauth || has_oauth_options(s)) {
        Some(Problem::OAuthNeedsUrl)
    } else if !s.oauth && has_oauth_options(s) {
        Some(Problem::OAuthOptionsNeedOAuth)
    } else {
        None
    }
}

/// OAuth options need OAuth on a url server: a server that sets a client
/// id, scopes or a redirect port without `"oauth": true` fails its checks,
/// as does a command server that sets any of them. A url server with a
/// client id and OAuth off is refused for exactly that reason.
pub proof fn oauth_options_law(s: ServerConfig)
    ensures
        (s.oauth_client_id is Some || s.oauth_scopes@.len() > 0 || s.oauth_redirect_port is Some) && !s.oauth
            ==> server_problem(s) is Some,
        (s.oauth_client_id is Some || s.oauth_scopes@.len() > 0 || s.oauth_redirect_port is Some || s.oauth)
            && s.command is Some ==> server_problem(s) is Some,
        s.command is None && s.url is Some && !s.oauth && s.oauth_client_id is Some ==> server_problem(s)
            == Some(Problem::OAuthOptionsNeedOAuth),
{
}

/// A server that fails its checks makes the configuration fail: some server
/// is the first to fail, and `validate` reports that one.
pub proof fn first_problem_law(servers: Seq<(Seq<char>, ServerConfig)>, k: int)
    requires
        0 <= k < servers.len(),
        server_problem(servers[k].1) is Some,
    ensures
        exists|i: int, p: Problem| #[trigger] first_problem_at(servers, i, p) && i <= k,
    decreases k,
{
    if exists|j: int| 0 <= j < k && server_problem(#[trigger] servers[j].1) is Some {
        let j = choose|j: int| 0 <= j < k && server_problem(#[trigger] servers[j].1) is Some;
        first_problem_law(servers, j);
    } else {
        let p = server_problem(servers[k].1)->Some_0;
        assert(first_problem_at(servers, k, p));
    }
}

/// A configuration holding a url server with a client id and OAuth off is
/// refused by `validate`, whatever else it holds: no configuration with such
/// a server passes every check.
pub proof fn validate_oauth_law(servers: Seq<(Seq<char>, ServerConfig)>, k: int)
    requires
        0 <= k < servers.len(),
        servers[k].1.oauth_client_id is Some,
        !servers[k].1.oauth,
    ensures
        !(forall|i: int| 0 <= i < servers.len() ==> server_problem(#[trigger] servers[i].1) is None),
        exists|i: int, p: Problem| #[trigger] first_problem_at(servers, i, p),
{
    oauth_options_law(servers[k].1);
    first_problem_law(servers, k);
}

/// Why a configuration is refused.
pub enum ConfigError {
    /// A server name occurs twice.
    DuplicateServer { name: String },
    /// A server's options are inconsistent.
    Invalid { server: String, problem: Problem },
    /// A server's `${VAR}` expansion failed.
    Expand { server: String, error: ExpandError },
}

impl Problem {
    /// The explanation that follows the server's name.
    pub open spec fn text_spec(&self) -> Seq<char> {
        match self {
            Problem::MissingTransport => "needs either \"command\" or \"url\""@,
            Problem::BothTransports => "has both \"command\" and \"url\", pick one"@,
            Problem::OAuthNeedsUrl => "oauth options require \"url\", not \"command\""@,
            Problem::OAuthOptionsNeedOAuth => "oauth_* options require \"oauth\": true"@,
        }
    }

    /// The explanation that follows the server's name.
    pub fn text(&self) -> (t: &'static str)
        ensures
            t@ == self.text_spec(),
    {
        match self {
            Problem::MissingTransport => "needs either \"command\" or \"url\"",
            Problem::BothTransports => "has both \"command\" and \"url\", pick one",
            Problem::OAuthNeedsUrl => "oauth options require \"url\", not \"command\"",
            Problem::OAuthOptionsNeedOAuth => "oauth_* options require \"oauth\": true",
        }
    }
}

impl ConfigError {
    /// The message the error carries.
    pub open spec fn message_spec(&self) -> Seq<char> {
        match self {
            ConfigError::DuplicateServer { name } => "duplicate server name: "@ + name@,
            ConfigError::Invalid { server, problem } => "server "@ + debug_str(server@) + ": "@
                + problem.text_spec(),
            ConfigError::Expand { server, error } => "server "@ + debug_str(server@) + ": "@
                + error.message_spec(),
        }
    }

    /// The error's message.
    pub fn message(&self) -> (m: String)
        ensures
            m@ == self.message_spec(),
    {
        match self {
            ConfigError::DuplicateServer { name } => concat2("duplicate server name: ", name.as_str()),
            ConfigError::Invalid { server, problem } => {
                let q = debug_quoted(server.as_str());
                let head = concat3("server ", q.as_str(), ": ");
                concat2(head.as_str(), problem.text())
            },
            ConfigError::Expand { server, error } => {
                let q = debug_quoted(server.as_str());
                let head = concat3("server ", q.as_str(), ": ");
                let m = error.message();
                concat2(head.as_str(), m.as_str())
            },
        }
    }
}

/// The names of a list of entries.
pub open spec fn entry_names(es: Seq<(String, ServerConfig)>) -> Seq<Seq<char>> {
    es.map_values(|e: (String, ServerConfig)| e.0@)
}

/// The name at position `k` already occurred before it.
pub open spec fn repeats_at(names: Seq<Seq<char>>, k: int) -> bool {
    exists|i: int| 0 <= i < k && names[i] == names[k]
}

/// The consistency check fails first at server `i` of `servers`, with `p`.
pub open spec fn first_problem_at(servers: Seq<(Seq<char>, ServerConfig)>, i: int, p: Problem) -> bool {
    &&& 0 <= i < servers.len()
    &&& server_problem(servers[i].1) == Some(p)
    &&& forall|j: int| 0 <= j < i ==> server_problem(#[trigger] servers[j].1) is None
}

/// The multiplexer's configuration: upstream servers by name.
#[derive(Clone)]
pub struct Config {
    pub mcp_servers: NameMap<ServerConfig>,
}

impl Config {
    /// A configuration with no servers.
    pub fn new() -> (c: Config)
        ensures
            c.mcp_servers@ == Seq::<(Seq<char>, ServerConfig)>::empty(),
    {
        Config { mcp_servers: NameMap::new() }
    }

    /// Adds server `name`, read after the servers already held. A name that
    /// is already held is refused and leaves the configuration unchanged.
    pub fn add_server(&mut self, name: String, server: ServerConfig) -> (r: Result<(), ConfigError>)
        ensures
            has_name(old(self).mcp_servers@, name@) <==> r is Err,
            r matches Err(e) ==> (e matches ConfigError::DuplicateServer { name: n } && n@ == name@),
            r is Err ==> final(self).mcp_servers@ == old(self).mcp_servers@,
            r is Ok ==> lookup(final(self).mcp_servers@, name@) == Some(server),
            r is Ok ==> forall|k: Seq<char>|
                k != name@ ==> lookup(final(self).mcp_servers@, k) == lookup(old(self).mcp_servers@, k),
            r is Ok ==> forall|n: Seq<char>|
                has_name(final(self).mcp_servers@, n) <==> (has_name(old(self).mcp_servers@, n) || n
                    == name@),
    {
        if self.mcp_servers.contains(name.as_str()) {
            return Err(ConfigError::DuplicateServer { name });
        }
        self.mcp_servers.insert(name, server);
        Ok(())
    }

    /// Builds the server map from `(name, config)` entries in the order they
    /// were written. A name written twice is refused, naming the first name
    /// that repeats.
    pub fn from_entries(entries: Vec<(String, ServerConfig)>) -> (r: Result<Config, ConfigError>)
        ensures
            match r {
                Ok(c) => {
                    &&& forall|k: int| 0 <= k < entries@.len() ==> !repeats_at(entry_names(entries@), k)
                    &&& forall|k: int| 0 <= k < entries@.len() ==> lookup(c.mcp_servers@, #[trigger] entries@[k].0@)
                        == Some(entries@[k].1)
                    &&& forall|n: Seq<char>| has_name(c.mcp_servers@, n) <==> entry_names(entries@).contains(n)
                },
                Err(e) => exists|k: int|
                    {
                        &&& 0 <= k < entries@.len()
                        &&& #[trigger] repeats_at(entry_names(entries@), k)
                        &&& forall|j: int| 0 <= j < k ==> !repeats_at(entry_names(entries@), j)
                        &&& e matches ConfigError::DuplicateServer { name } && name@ == entries@[k].0@
                    },
            },
    {
        let ghost es = entries@;
        let ghost names = entry_names(es);
        let mut m: NameMap<ServerConfig> = NameMap::new();
        let mut i: usize = 0;
        for e in it: entries
            invariant
                it.seq() == es,
                names == entry_names(es),
                forall|k: int| 0 <= k < it.index() ==> !repeats_at(names, k),
                forall|k: int| 0 <= k < it.index() ==> lookup(m@, #[trigger] es[k].0@) == Some(es[k].1),
                forall|n: Seq<char>| has_name(m@, n) <==> names.take(it.index() as int).contains(n),
        {
            let ghost idx = it.index() as int;
            let (k, v) = e;
            let name = k.clone();
            assert(names[idx] == k@);
            match m.insert(k, v) {
                Some(_) => {
                    proof {
                        let t0 = names.take(idx);
                        let j = choose|j: int| 0 <= j < t0.len() && t0[j] == k@;
                        assert(names[j] == names[idx]);
                        assert(repeats_at(names, idx));
                    }
                    return Err(ConfigError::DuplicateServer { name });
                },
                None => {
                    proof {
                        assert(!repeats_at(names, idx)) by {
                            if repeats_at(names, idx) {
                                let j = choose|j: int| 0 <= j < idx && names[j] == names[idx];
                                let t0 = names.take(idx);
                                assert(t0[j] == k@);
                            }
                        }
                        let t0 = names.take(idx);
                        let t1 = names.take(idx + 1);
                        assert forall|n: Seq<char>| has_name(m@, n) <==> t1.contains(n) by {
                            if t0.contains(n) {
                                let j = choose|j: int| 0 <= j < t0.len() && t0[j] == n;
                                assert(t1[j] == n);
                            }
                            if t1.contains(n) {
                                let j = choose|j: int| 0 <= j < t1.len() && t1[j] == n;
                                if j < idx {
                                    assert(t0[j] == n);
                                }
                            }
                            if n == k@ {
                                assert(t1[idx] == n);
                            }
                        }
                    }
                },
            }
        }
        proof {
            assert(names.take(es.len() as int) =~= names);
        }
        Ok(Config { mcp_servers: m })
    }

    /// Checks every server's options; the first inconsistency (servers in
    /// name order) is the error.
    pub fn validate(&self) -> (r: Result<(), ConfigError>)
        ensures
            match r {
                Ok(()) => forall|i: int|
                    0 <= i < self.mcp_servers@.len() ==> server_problem(#[trigger] self.mcp_servers@[i].1) is None,
                Err(e) => exists|i: int, p: Problem|
                    #[trigger] first_problem_at(self.mcp_servers@, i, p) && (e matches ConfigError::Invalid {
                        server,
                        problem,
                    } && server@ == self.mcp_servers@[i].0 && problem == p),
            },
    {
        let n = self.mcp_servers.len();
        let mut i: usize = 0;
        while i < n
            invariant
                n == self.mcp_servers@.len(),
                i <= n,
                forall|j: int| 0 <= j < i ==> server_problem(#[trigger] self.mcp_servers@[j].1) is None,
            decreases n - i,
        {
            let s = self.mcp_servers.value_at(i);
            let oauth_opts = s.oauth_client_id.is_some() || s.oauth_scopes.len() > 0
                || s.oauth_redirect_port.is_some();
            let problem = if s.command.is_none() && s.url.is_none() {
                Some(Problem::MissingTransport)
            } else if s.command.is_some() && s.url.is_some() {
                Some(Problem::BothTransports)
            } else if s.command.is_some() && (s.oauth || oauth_opts) {
                Some(Problem::OAuthNeedsUrl)
            } else if !s.oauth && oauth_opts {
                Some(Problem::OAuthOptionsNeedOAuth)
            } else {
                None
            };
            match problem {
                Some(p) => {
                    let server = self.mcp_servers.name_at(i).clone();
                    assert(first_problem_at(self.mcp_servers@, i as int, p));
                    return Err(ConfigError::Invalid { server, problem: p });
                },
                None => {},
            }
            i = i + 1;
        }
        Ok(())
    }
}

// ---------------------------------------------------------------------------
// Expanding a whole configuration
// ---------------------------------------------------------------------------

/// `t` expands without error.
pub open spec fn expands(t: Seq<char>, env: Seq<(Seq<char>, String)>) -> bool {
    expand_spec(t, env) is Ok
}

/// The expansion of `t` (empty when it fails).
pub open spec fn expansion(t: Seq<char>, env: Seq<(Seq<char>, String)>) -> Seq<char> {
    match expand_spec(t, env) {
        Ok(o) => o,
        Err(_) => Seq::empty(),
    }
}

/// Among `texts`, position `k` is the first that fails to expand.
pub open spec fn fails_first(texts: Seq<Seq<char>>, env: Seq<(Seq<char>, String)>, k: int) -> bool {
    &&& 0 <= k < texts.len()
    &&& !expands(texts[k], env)
    &&& forall|j: int| 0 <= j < k ==> expands(#[trigger] texts[j], env)
}

/// Every text of `texts` expands.
pub open spec fn all_expand(texts: Seq<Seq<char>>, env: Seq<(Seq<char>, String)>) -> bool {
    forall|j: int| 0 <= j < texts.len() ==> expands(#[trigger] texts[j], env)
}

/// The text of an optional string, as a list of zero or one texts.
pub open spec fn opt_texts(o: Option<String>) -> Seq<Seq<char>> {
    match o {
        Some(s) => seq![s@],
        None => Seq::empty(),
    }
}

/// The texts of a list of strings.
pub open spec fn strings_texts(v: Seq<String>) -> Seq<Seq<char>> {
    v.map_values(|s: String| s@)
}

/// The texts of a map's values, in name order.
pub open spec fn values_texts(m: Seq<(Seq<char>, String)>) -> Seq<Seq<char>> {
    m.map_values(|e: (Seq<char>, String)| e.1@)
}

/// The strings of a server that `${VAR}` expansion rewrites, in the order it
/// rewrites them: command, args, env values, url, header values.
pub open spec fn server_texts(s: ServerConfig) -> Seq<Seq<char>> {
    opt_texts(s.command) + strings_texts(s.args@) + values_texts(s.env@) + opt_texts(s.url)
        + values_texts(s.headers@)
}

/// `new` is `old` expanded.
pub open spec fn opt_expanded(old: Option<String>, new: Option<String>, env: Seq<(Seq<char>, String)>) -> bool {
    match (old, new) {
        (Some(a), Some(b)) => b@ == expansion(a@, env),
        (None, None) => true,
        _ => false,
    }
}

/// `new` is `old` with each string expanded.
pub open spec fn strings_expanded(old: Seq<String>, new: Seq<String>, env: Seq<(Seq<char>, String)>) -> bool {
    &&& new.len() == old.len()
    &&& forall|i: int| 0 <= i < old.len() ==> #[trigger] new[i]@ == expansion(old[i]@, env)
}

/// `new` has the names of `old`, in order, with each value expanded.
pub open spec fn values_expanded(
    old: Seq<(Seq<char>, String)>,
    new: Seq<(Seq<char>, String)>,
    env: Seq<(Seq<char>, String)>,
) -> bool {
    &&& new.len() == old.len()
    &&& forall|i: int|
        0 <= i < old.len() ==> #[trigger] new[i].0 == old[i].0 && new[i].1@ == expansion(old[i].1@, env)
}

/// `new` is the server `old` after `${VAR}` expansion: its strings expanded,
/// everything else as it was.
pub open spec fn expanded_server(old: ServerConfig, new: ServerConfig, env: Seq<(Seq<char>, String)>) -> bool {
    &&& opt_expanded(old.command, new.command, env)
    &&& strings_expanded(old.args@, new.args@, env)
    &&& values_expanded(old.env@, new.env@, env)
    &&& opt_expanded(old.url, new.url, env)
    &&& values_expanded(old.headers@, new.headers@, env)
    &&& new.connect_timeout == old.connect_timeout
    &&& new.expose == old.expose
    &&& match (old.allow, new.allow) {
        (Some(a), Some(b)) => a@ == b@,
        (None, None) => true,
        _ => false,
    }
    &&& new.deny@ == old.deny@
    &&& new.oauth == old.oauth
    &&& new.oauth_client_id == old.oauth_client_id
    &&& new.oauth_scopes@ == old.oauth_scopes@
    &&& new.oauth_redirect_port == old.oauth_redirect_port
}

/// A copy of a list of strings.
pub fn clone_strings(v: &Vec<String>) -> (r: Vec<String>)
    ensures
        r@ == v@,
{
    let mut r: Vec<String> = Vec::new();
    let mut i: usize = 0;
    while i < v.len()
        invariant
            i <= v.len(),
            r@ == v@.subrange(0, i as int),
        decreases v.len() - i,
    {
        r.push(v[i].clone());
        i = i + 1;
        assert(r@ =~= v@.subrange(0, i as int));
    }
    assert(v@.subrange(0, v@.len() as int) =~= v@);
    r
}

/// An optional string, expanded.
fn expand_opt(o: &Option<String>, env: &NameMap<String>) -> (r: Result<Option<String>, ExpandError>)
    ensures
        match r {
            Ok(n) => all_expand(opt_texts(*o), env@) && opt_expanded(*o, n, env@),
            Err(e) => exists|k: int| fails_first(opt_texts(*o), env@, k) && e.reports(opt_texts(*o)[k], env@),
        },
{
    match o {
        None => Ok(None),
        Some(s) => match expand(s.as_str(), env) {
            Ok(x) => Ok(Some(x)),
            Err(e) => {
                assert(fails_first(opt_texts(*o), env@, 0));
                Err(e)
            },
        },
    }
}

/// A list of strings, each expanded.
fn expand_list(v: &Vec<String>, env: &NameMap<String>) -> (r: Result<Vec<String>, ExpandError>)
    ensures
        match r {
            Ok(n) => all_expand(strings_texts(v@), env@) && strings_expanded(v@, n@, env@),
            Err(e) => exists|k: int|
                fails_first(strings_texts(v@), env@, k) && e.reports(strings_texts(v@)[k], env@),
        },
{
    let ghost texts = strings_texts(v@);
    let mut out: Vec<String> = Vec::new();
    let mut i: usize = 0;
    while i < v.len()
        invariant
            i <= v.len(),
            texts == strings_texts(v@),
            out@.len() == i,
            forall|j: int| 0 <= j < i ==> expands(#[trigger] texts[j], env@),
            forall|j: int| 0 <= j < i ==> #[trigger] out@[j]@ == expansion(v@[j]@, env@),
        decreases v.len() - i,
    {
        match expand(v[i].as_str(), env) {
            Ok(x) => {
                out.push(x);
            },
            Err(e) => {
                assert(fails_first(texts, env@, i as int));
                return Err(e);
            },
        }
        i = i + 1;
    }
    Ok(out)
}

/// A map's values, each expanded; names unchanged.
fn expand_values(m: &NameMap<String>, env: &NameMap<String>) -> (r: Result<NameMap<String>, ExpandError>)
    ensures
        match r {
            Ok(n) => all_expand(values_texts(m@), env@) && values_expanded(m@, n@, env@),
            Err(e) => exists|k: int|
                fails_first(values_texts(m@), env@, k) && e.reports(values_texts(m@)[k], env@),
        },
{
    let ghost texts = values_texts(m@);
    let mut out: Vec<String> = Vec::new();
    let mut i: usize = 0;
    while i < m.len()
        invariant
            i <= m@.len(),
            texts == values_texts(m@),
            out@.len() == i,
            forall|j: int| 0 <= j < i ==> expands(#[trigger] texts[j], env@),
            forall|j: int| 0 <= j < i ==> #[trigger] out@[j]@ == expansion(m@[j].1@, env@),
        decreases m@.len() - i,
    {
        match expand(m.value_at(i).as_str(), env) {
            Ok(x) => {
                out.push(x);
            },
            Err(e) => {
                assert(fails_first(texts, env@, i as int));
                return Err(e);
            },
        }
        i = i + 1;
    }
    let ghost vals = out@;
    let r = m.with_values(out);
    assert forall|j: int| 0 <= j < m@.len() implies #[trigger] r@[j].0 == m@[j].0 && r@[j].1@
        == expansion(m@[j].1@, env@) by {
        assert(r@[j] == (m@[j].0, vals[j]));
    }
    Ok(r)
}

/// Carries a failure in one part of a concatenation to the whole.
proof fn lemma_fails_first_shift(
    a: Seq<Seq<char>>,
    b: Seq<Seq<char>>,
    c: Seq<Seq<char>>,
    env: Seq<(Seq<char>, String)>,
    k: int,
)
    requires
        all_expand(a, env),
        fails_first(b, env, k),
    ensures
        fails_first(a + b + c, env, a.len() + k),
        (a + b + c)[a.len() + k] == b[k],
{
    let whole = a + b + c;
    assert(whole[a.len() + k] == b[k]);
    assert forall|j: int| 0 <= j < a.len() + k implies expands(#[trigger] whole[j], env) by {
        if j < a.len() {
            assert(whole[j] == a[j]);
        } else {
            assert(whole[j] == b[j - a.len()]);
        }
    }
}

/// One server's strings, expanded.
fn expand_server(s: &ServerConfig, env: &NameMap<String>) -> (r: Result<ServerConfig, ExpandError>)
    ensures
        match r {
            Ok(n) => all_expand(server_texts(*s), env@) && expanded_server(*s, n, env@),
            Err(e) => exists|k: int|
                fails_first(server_texts(*s), env@, k) && e.reports(server_texts(*s)[k], env@),
        },
{
    let ghost t_cmd = opt_texts(s.command);
    let ghost t_args = strings_texts(s.args@);
    let ghost t_env = values_texts(s.env@);
    let ghost t_url = opt_texts(s.url);
    let ghost t_hdr = values_texts(s.headers@);
    let ghost all = server_texts(*s);
    assert(all == t_cmd + t_args + t_env + t_url + t_hdr);
    let command = match expand_opt(&s.command, env) {
        Ok(c) => c,
        Err(e) => {
            proof {
                let k = choose|k: int| fails_first(t_cmd, env@, k) && e.reports(t_cmd[k], env@);
                lemma_fails_first_shift(Seq::empty(), t_cmd, t_args + t_env + t_url + t_hdr, env@, k);
                assert(Seq::<Seq<char>>::empty() + t_cmd + (t_args + t_env + t_url + t_hdr) =~= all);
            }
            return Err(e);
        },
    };
    let args = match expand_list(&s.args, env) {
        Ok(a) => a,
        Err(e) => {
            proof {
                let k = choose|k: int| fails_first(t_args, env@, k) && e.reports(t_args[k], env@);
                lemma_fails_first_shift(t_cmd, t_args, t_env + t_url + t_hdr, env@, k);
                assert(t_cmd + t_args + (t_env + t_url + t_hdr) =~= all);
            }
            return Err(e);
        },
    };
    let envs = match expand_values(&s.env, env) {
        Ok(m) => m,
        Err(e) => {
            proof {
                let k = choose|k: int| fails_first(t_env, env@, k) && e.reports(t_env[k], env@);
                assert forall|j: int| 0 <= j < (t_cmd + t_args).len() implies expands(
                    #[trigger] (t_cmd + t_args)[j],
                    env@,
                ) by {
                    if j < t_cmd.len() {
                        assert((t_cmd + t_args)[j] == t_cmd[j]);
                    } else {
                        assert((t_cmd + t_args)[j] == t_args[j - t_cmd.len()]);
                    }
                }
                lemma_fails_first_shift(t_cmd + t_args, t_env, t_url + t_hdr, env@, k);
                assert(t_cmd + t_args + t_env + (t_url + t_hdr) =~= all);
            }
            return Err(e);
        },
    };
    let url = match expand_opt(&s.url, env) {
        Ok(u) => u,
        Err(e) => {
            proof {
                let k = choose|k: int| fails_first(t_url, env@, k) && e.reports(t_url[k], env@);
                let pre = t_cmd + t_args + t_env;
                assert forall|j: int| 0 <= j < pre.len() implies expands(#[trigger] pre[j], env@) by {
                    if j < t_cmd.len() {
                        assert(pre[j] == t_cmd[j]);
                    } else if j < t_cmd.len() + t_args.len() {
                        assert(pre[j] == t_args[j - t_cmd.len()]);
                    } else {
                        assert(pre[j] == t_env[j - t_cmd.len() - t_args.len()]);
                    }
                }
                lemma_fails_first_shift(pre, t_url, t_hdr, env@, k);
            }
            return Err(e);
        },
    };
    let headers = match expand_values(&s.headers, env) {
        Ok(m) => m,
        Err(e) => {
            proof {
                let k = choose|k: int| fails_first(t_hdr, env@, k) && e.reports(t_hdr[k], env@);
                let pre = t_cmd + t_args + t_env + t_url;
                assert forall|j: int| 0 <= j < pre.len() implies expands(#[trigger] pre[j], env@) by {
                    if j < t_cmd.len() {
                        assert(pre[j] == t_cmd[j]);
                    } else if j < t_cmd.len() + t_args.len() {
                        assert(pre[j] == t_args[j - t_cmd.len()]);
                    } else if j < t_cmd.len() + t_args.len() + t_env.len() {
                        assert(pre[j] == t_env[j - t_cmd.len() - t_args.len()]);
                    } else {
                        assert(pre[j] == t_url[j - t_cmd.len() - t_args.len() - t_env.len()]);
                    }
                }
                lemma_fails_first_shift(pre, t_hdr, Seq::empty(), env@, k);
                assert(pre + t_hdr + Seq::<Seq<char>>::empty() =~= all);
            }
            return Err(e);
        },
    };
    proof {
        assert forall|j: int| 0 <= j < all.len() implies expands(#[trigger] all[j], env@) by {
            if j < t_cmd.len() {
                assert(all[j] == t_cmd[j]);
            } else if j < t_cmd.len() + t_args.len() {
                assert(all[j] == t_args[j - t_cmd.len()]);
            } else if j < t_cmd.len() + t_args.len() + t_env.len() {
                assert(all[j] == t_env[j - t_cmd.len() - t_args.len()]);
            } else if j < t_cmd.len() + t_args.len() + t_env.len() + t_url.len() {
                assert(all[j] == t_url[j - t_cmd.len() - t_args.len() - t_env.len()]);
            } else {
                assert(all[j] == t_hdr[j - t_cmd.len() - t_args.len() - t_env.len() - t_url.len()]);
            }
        }
    }
    let allow = match &s.allow {
        Some(a) => Some(clone_strings(a)),
        None => None,
    };
    Ok(ServerConfig {
        command,
        args,
        env: envs,
        url,
        headers,
        connect_timeout: s.connect_timeout,
        expose: s.expose,
        allow,
        deny: clone_strings(&s.deny),
        oauth: s.oauth,
        oauth_client_id: crate::model::clone_opt_string(&s.oauth_client_id),
        oauth_scopes: clone_strings(&s.oauth_scopes),
        oauth_redirect_port: s.oauth_redirect_port,
    })
}

impl Config {
    /// Expands `${VAR}` in command, args, env, url and headers of every
    /// server, looking variables up in `env`. The first failure (servers in
    /// name order, strings in that order within a server) is the error, and
    /// then the configuration is left as it was.
    pub fn expand_env(&mut self, env: &NameMap<String>) -> (r: Result<(), ConfigError>)
        ensures
            match r {
                Ok(()) => {
                    &&& final(self).mcp_servers@.len() == old(self).mcp_servers@.len()
                    &&& forall|i: int|
                        0 <= i < old(self).mcp_servers@.len() ==> {
                            &&& #[trigger] final(self).mcp_servers@[i].0 == old(self).mcp_servers@[i].0
                            &&& all_expand(server_texts(old(self).mcp_servers@[i].1), env@)
                            &&& expanded_server(old(self).mcp_servers@[i].1, final(self).mcp_servers@[i].1, env@)
                        }
                },
                Err(e) => {
                    &&& final(self).mcp_servers@ == old(self).mcp_servers@
                    &&& exists|i: int, k: int|
                        {
                            &&& 0 <= i < old(self).mcp_servers@.len()
                            &&& forall|j: int|
                                0 <= j < i ==> all_expand(server_texts(#[trigger] old(self).mcp_servers@[j].1), env@)
                            &&& #[trigger] fails_first(server_texts(old(self).mcp_servers@[i].1), env@, k)
                            &&& e matches ConfigError::Expand { server, error }
                            &&& server@ == old(self).mcp_servers@[i].0
                            &&& error.reports(server_texts(old(self).mcp_servers@[i].1)[k], env@)
                        }
                },
            },
    {
        let n = self.mcp_servers.len();
        let mut out: Vec<ServerConfig> = Vec::new();
        let mut i: usize = 0;
        while i < n
            invariant
                n == self.mcp_servers@.len(),
                i <= n,
                out@.len() == i,
                forall|j: int|
                    0 <= j < i ==> all_expand(server_texts(#[trigger] self.mcp_servers@[j].1), env@),
                forall|j: int|
                    0 <= j < i ==> expanded_server(self.mcp_servers@[j].1, #[trigger] out@[j], env@),
            decreases n - i,
        {
            match expand_server(self.mcp_servers.value_at(i), env) {
                Ok(s) => {
                    out.push(s);
                },
                Err(error) => {
                    let server = self.mcp_servers.name_at(i).clone();
                    return Err(ConfigError::Expand { server, error });
                },
            }
            i = i + 1;
        }
        let ghost vals = out@;
        let m = self.mcp_servers.with_values(out);
        assert forall|j: int| 0 <= j < n implies #[trigger] m@[j].0 == self.mcp_servers@[j].0
            && expanded_server(self.mcp_servers@[j].1, m@[j].1, env@) by {
            assert(m@[j] == (self.mcp_servers@[j].0, vals[j]));
        }
        self.mcp_servers = m;
        Ok(())
    }
}

} // verus!
