//! The on-disk tool index: what is saved, and what a load gives back.
use crate::model::ToolInfo;
use crate::names::{lookup, NameMap};
use crate::text::{concat2, concat3};
use std::collections::hash_map::DefaultHasher;
use std::hash::Hasher;
use vstd::prelude::*;
use vstd::std_specs::hash::DefaultHasherAdditionalSpecFns;
use vstd::string::StringSliceAdditionalSpecFns;

verus! {

/// The cache key of a text: `DefaultHasher` fed the text's UTF-8 bytes and
/// then the byte 0xFF (what hashing a `str` writes).
pub open spec fn text_key(text: &str) -> u64 {
    DefaultHasher::spec_finish(seq![text.spec_bytes(), seq![0xFFu8]])
}

/// The cache key of a configuration text. Not cryptographic: a collision
/// only costs a cold start.
pub fn config_hash(text: &str) -> (h: u64)
    ensures
        h == text_key(text),
{
    let mut hasher = DefaultHasher::new();
    hasher.write(text.as_bytes());
    let end: [u8; 1] = [0xFF];
    let tail = end.as_slice();
    proof {
        broadcast use vstd::array::group_array_axioms;
        assert(tail@ =~= seq![0xFFu8]);
    }
    hasher.write(tail);
    let h = hasher.finish();
    assert(hasher@ =~= seq![text.spec_bytes(), seq![0xFFu8]]);
    h
}

/// Equal configuration texts have equal cache keys.
pub proof fn config_hash_law(a: &str, b: &str)
    requires
        a@ == b@,
    ensures
        text_key(a) == text_key(b),
{
}

/// `child` joined under the directory `base`: `child` alone when `base` is
/// empty, no separator added when `base` already ends in `/`.
pub open spec fn join_spec(base: Seq<char>, child: Seq<char>) -> Seq<char> {
    if base.len() == 0 {
        child
    } else if base.last() == '/' {
        base + child
    } else {
        base + "/"@ + child
    }
}

/// `child` joined under the directory `base`.
pub fn join_path(base: &str, child: &str) -> (p: String)
    ensures
        p@ == join_spec(base@, child@),
{
    let n = base.unicode_len();
    if n == 0 {
        child.to_string()
    } else if base.get_char(n - 1) == '/' {
        concat2(base, child)
    } else {
        concat3(base, "/", child)
    }
}

/// The directory that holds the index, the tokens and the counters, from the
/// values of `XDG_CACHE_HOME` and `HOME`: under `XDG_CACHE_HOME` when it is
/// set, else under `HOME/.cache`, else under the current directory.
pub fn cache_dir_from(xdg: Option<String>, home: Option<String>) -> (d: String)
    ensures
        d@ == match (xdg, home) {
            (Some(x), _) => join_spec(x@, "mcp-multiplexer"@),
            (None, Some(h)) => join_spec(join_spec(h@, ".cache"@), "mcp-multiplexer"@),
            (None, None) => join_spec("."@, "mcp-multiplexer"@),
        },
{
    match (xdg, home) {
        (Some(x), _) => join_path(x.as_str(), "mcp-multiplexer"),
        (None, Some(h)) => {
            let c = join_path(h.as_str(), ".cache");
            join_path(c.as_str(), "mcp-multiplexer")
        },
        (None, None) => join_path(".", "mcp-multiplexer"),
    }
}

/// The index file in the cache directory `dir`.
pub fn cache_path_from(dir: &str) -> (p: String)
    ensures
        p@ == join_spec(dir@, "index.json"@),
{
    join_path(dir, "index.json")
}

/// The tool index held in memory: tools and instructions by server name.
pub struct Cache {
    pub servers: NameMap<Vec<ToolInfo>>,
    pub instructions: NameMap<String>,
}

/// The index as it is written to disk, keyed by the configuration's hash.
pub struct CacheFile {
    pub config_hash: u64,
    pub servers: NameMap<Vec<ToolInfo>>,
    pub instructions: NameMap<String>,
}

/// What loading a file with key `file_hash` gives for configuration hash
/// `h`: the file's contents when the keys agree, an empty index otherwise.
pub open spec fn loaded(
    file_hash: u64,
    servers: Seq<(Seq<char>, Vec<ToolInfo>)>,
    instructions: Seq<(Seq<char>, String)>,
    h: u64,
) -> (Seq<(Seq<char>, Vec<ToolInfo>)>, Seq<(Seq<char>, String)>) {
    if file_hash == h {
        (servers, instructions)
    } else {
        (Seq::empty(), Seq::empty())
    }
}

/// A copy of a list of tools.
pub fn clone_tools(v: &Vec<ToolInfo>) -> (r: Vec<ToolInfo>)
    ensures
        r@ == v@,
{
    let mut r: Vec<ToolInfo> = Vec::new();
    let mut i: usize = 0;
    while i < v.len()
        invariant
            i <= v.len(),
            r@ == v@.subrange(0, i as int),
        decreases v.len() - i,
    {
        r.push(v[i].duplicate());
        i = i + 1;
        assert(r@ =~= v@.subrange(0, i as int));
    }
    assert(v@.subrange(0, v@.len() as int) =~= v@);
    r
}

/// Two maps of tool lists hold the same names, in the same order, with the
/// same tools.
pub open spec fn same_tool_lists(a: Seq<(Seq<char>, Vec<ToolInfo>)>, b: Seq<(Seq<char>, Vec<ToolInfo>)>) -> bool {
    &&& a.len() == b.len()
    &&& forall|i: int| 0 <= i < a.len() ==> #[trigger] a[i].0 == b[i].0 && a[i].1@ == b[i].1@
}

/// A copy of a map of tool lists.
fn clone_tool_map(m: &NameMap<Vec<ToolInfo>>) -> (r: NameMap<Vec<ToolInfo>>)
    ensures
        same_tool_lists(r@, m@),
{
    let mut vals: Vec<Vec<ToolInfo>> = Vec::new();
    let mut i: usize = 0;
    while i < m.len()
        invariant
            i <= m@.len(),
            vals@.len() == i,
            forall|j: int| 0 <= j < i ==> (#[trigger] vals@[j])@ == m@[j].1@,
        decreases m@.len() - i,
    {
        vals.push(clone_tools(m.value_at(i)));
        i = i + 1;
    }
    let ghost vs = vals@;
    let r = m.with_values(vals);
    assert forall|j: int| 0 <= j < m@.len() implies #[trigger] r@[j].0 == m@[j].0 && r@[j].1@ == m@[j].1@ by {
        assert(r@[j] == (m@[j].0, vs[j]));
    }
    r
}

/// A copy of a map of strings.
fn clone_string_map(m: &NameMap<String>) -> (r: NameMap<String>)
    ensures
        r@ == m@,
{
    let mut vals: Vec<String> = Vec::new();
    let mut i: usize = 0;
    while i < m.len()
        invariant
            i <= m@.len(),
            vals@.len() == i,
            forall|j: int| 0 <= j < i ==> #[trigger] vals@[j] == m@[j].1,
        decreases m@.len() - i,
    {
        vals.push(m.value_at(i).clone());
        i = i + 1;
    }
    let ghost vs = vals@;
    let r = m.with_values(vals);
    assert forall|j: int| 0 <= j < m@.len() implies #[trigger] r@[j] == m@[j] by {
        assert(r@[j] == (m@[j].0, vs[j]));
    }
    assert(r@ =~= m@);
    r
}

impl Cache {
    /// The empty index.
    pub fn empty() -> (c: Cache)
        ensures
            c.servers@ == Seq::<(Seq<char>, Vec<ToolInfo>)>::empty(),
            c.instructions@ == Seq::<(Seq<char>, String)>::empty(),
    {
        Cache { servers: NameMap::new(), instructions: NameMap::new() }
    }

    /// The index that loading `f` gives under configuration hash
    /// `config_hash`: a file written for another configuration (or an older
    /// one) yields an empty index.
    pub fn from_file(f: CacheFile, config_hash: u64) -> (c: Cache)
        ensures
            (c.servers@, c.instructions@) == loaded(
                f.config_hash,
                f.servers@,
                f.instructions@,
                config_hash,
            ),
    {
        if f.config_hash != config_hash {
            return Cache::empty();
        }
        Cache { servers: f.servers, instructions: f.instructions }
    }

    /// The file to write for this index under configuration hash
    /// `config_hash`.
    pub fn to_file(&self, config_hash: u64) -> (f: CacheFile)
        ensures
            f.config_hash == config_hash,
            same_tool_lists(f.servers@, self.servers@),
            f.instructions@ == self.instructions@,
    {
        CacheFile {
            config_hash,
            servers: clone_tool_map(&self.servers),
            instructions: clone_string_map(&self.instructions),
        }
    }

    /// The cached tools of server `name` (none when it has no entry).
    pub fn tools_for(&self, name: &str) -> (r: Vec<ToolInfo>)
        ensures
            match lookup(self.servers@, name@) {
                Some(v) => r@ == v@,
                None => r@.len() == 0,
            },
    {
        match self.servers.get(name) {
            Some(v) => clone_tools(v),
            None => Vec::new(),
        }
    }

    /// The cached instructions of server `name`.
    pub fn instructions_for(&self, name: &str) -> (r: Option<String>)
        ensures
            r == lookup(self.instructions@, name@),
    {
        match self.instructions.get(name) {
            Some(v) => Some(v.clone()),
            None => None,
        }
    }
}

impl Cache {
    /// Records a fresh listing of server `name`: its visible tools replace
    /// the cached ones, and its instructions, when it sent any, replace the
    /// cached instructions (which are kept otherwise). Other servers' entries
    /// are untouched.
    pub fn record_listing(&mut self, name: &str, tools: Vec<ToolInfo>, instructions: Option<String>)
        ensures
            lookup(final(self).servers@, name@) == Some(tools),
            forall|k: Seq<char>|
                k != name@ ==> lookup(final(self).servers@, k) == lookup(old(self).servers@, k),
            match instructions {
                Some(i) => lookup(final(self).instructions@, name@) == Some(i),
                None => final(self).instructions@ == old(self).instructions@,
            },
            forall|k: Seq<char>|
                k != name@ ==> lookup(final(self).instructions@, k) == lookup(
                    old(self).instructions@,
                    k,
                ),
    {
        if let Some(i) = instructions {
            self.instructions.insert(name.to_string(), i);
        }
        self.servers.insert(name.to_string(), tools);
    }
}

impl Default for Cache {
    fn default() -> (c: Cache)
        ensures
            c.servers@ == Seq::<(Seq<char>, Vec<ToolInfo>)>::empty(),
            c.instructions@ == Seq::<(Seq<char>, String)>::empty(),
    {
        Cache::empty()
    }
}

/// Loading what was saved under the same configuration hash gives the
/// index back; under any other hash it gives an empty index.
pub proof fn cache_roundtrip_law(
    servers: Seq<(Seq<char>, Vec<ToolInfo>)>,
    instructions: Seq<(Seq<char>, String)>,
    saved: u64,
    current: u64,
)
    ensures
        saved == current ==> loaded(saved, servers, instructions, current) == (servers, instructions),
        saved != current ==> loaded(saved, servers, instructions, current) == (
            Seq::<(Seq<char>, Vec<ToolInfo>)>::empty(),
            Seq::<(Seq<char>, String)>::empty(),
        ),
{
}

} // verus!
