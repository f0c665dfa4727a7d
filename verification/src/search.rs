//! Ranked tool search over the index: every query word found in a tool's
//! name earns 2 points, every word found in its description earns 1, and
//! tools with points come out best first.
use crate::model::ToolInfo;
use crate::text::{
    ascii_lower, ascii_lower_char, ascii_text, ascii_upper, ascii_upper_char, contains_seq,
    contains_str, is_white_space, lowercase, str_eq, to_lowercase, word_spans, words, words_after,
};
use vstd::prelude::*;
use vstd::string::*;

verus! {

// ---------------------------------------------------------------------------
// Tokens of the query
// ---------------------------------------------------------------------------

/// The search tokens of a query: its words, lowercased.
pub open spec fn tokens(query: Seq<char>) -> Seq<Seq<char>> {
    words(query).map_values(|w: Seq<char>| lowercase(w))
}

/// The lowercased tokens of `query`; on ASCII text, lowercasing maps only
/// `A`-`Z`.
fn query_tokens(query: &str) -> (toks: Vec<String>)
    ensures
        toks@.map_values(|t: String| t@) == tokens(query@),
        ascii_text(query@) ==> toks@.map_values(|t: String| t@) == words(query@).map_values(
            |w: Seq<char>| ascii_lower(w),
        ),
{
    let spans = word_spans(query);
    let ghost ws = words(query@);
    let mut toks: Vec<String> = Vec::new();
    let mut k: usize = 0;
    while k < spans.len()
        invariant
            k <= spans@.len(),
            ws == words(query@),
            spans@.len() == ws.len(),
            forall|m: int|
                0 <= m < spans@.len() ==> (#[trigger] spans@[m]).0 <= spans@[m].1 <= query@.len()
                    && ws[m] == query@.subrange(spans@[m].0 as int, spans@[m].1 as int),
            toks@.map_values(|t: String| t@) == ws.take(k as int).map_values(|w: Seq<char>| lowercase(w)),
            ascii_text(query@) ==> toks@.map_values(|t: String| t@) == ws.take(k as int).map_values(
                |w: Seq<char>| ascii_lower(w),
            ),
        decreases spans.len() - k,
    {
        let (a, b) = spans[k];
        let w = query.substring_char(a, b);
        let t = to_lowercase(w);
        proof {
            assert(ws[k as int] == w@);
            if ascii_text(query@) {
                assert forall|i: int| 0 <= i < w@.len() implies (#[trigger] w@[i]) as u32 <= 0x7F by {
                    assert(w@[i] == query@[a + i]);
                }
                assert(ws.take(k + 1).map_values(|w: Seq<char>| ascii_lower(w)) =~= ws.take(k as int).map_values(
                    |w: Seq<char>| ascii_lower(w),
                ).push(ascii_lower(w@)));
            }
            assert(toks@.push(t).map_values(|t: String| t@) =~= toks@.map_values(|t: String| t@).push(t@));
            assert(ws.take(k + 1).map_values(|w: Seq<char>| lowercase(w)) =~= ws.take(k as int).map_values(
                |w: Seq<char>| lowercase(w),
            ).push(lowercase(w@)));
        }
        toks.push(t);
        k = k + 1;
    }
    assert(ws.take(ws.len() as int) =~= ws);
    toks
}

// ---------------------------------------------------------------------------
// Scoring
// ---------------------------------------------------------------------------

/// The text of a tool's name that tokens are matched against.
pub open spec fn name_text(t: ToolInfo) -> Seq<char> {
    lowercase(t.name@)
}

/// The text of a tool's description that tokens are matched against (an
/// absent description counts as empty).
pub open spec fn description_text(t: ToolInfo) -> Seq<char> {
    lowercase(
        match t.description {
            Some(d) => d@,
            None => Seq::empty(),
        },
    )
}

/// Points one token earns against a lowercased name and description: 2
/// when the name contains it, plus 1 when the description contains it.
pub open spec fn text_points(tok: Seq<char>, name: Seq<char>, desc: Seq<char>) -> int {
    (if contains_seq(name, tok) {
        2int
    } else {
        0int
    }) + (if contains_seq(desc, tok) {
        1int
    } else {
        0int
    })
}

/// The points of all tokens against a lowercased name and description.
pub open spec fn text_score(toks: Seq<Seq<char>>, name: Seq<char>, desc: Seq<char>) -> int
    decreases toks.len(),
{
    if toks.len() == 0 {
        0
    } else {
        text_score(toks.drop_last(), name, desc) + text_points(toks.last(), name, desc)
    }
}

/// Points one token earns a tool.
pub open spec fn token_points(tok: Seq<char>, t: ToolInfo) -> int {
    text_points(tok, name_text(t), description_text(t))
}

/// A tool's score: the points of all tokens against its lowercased name and
/// description.
pub open spec fn score(toks: Seq<Seq<char>>, t: ToolInfo) -> int {
    text_score(toks, name_text(t), description_text(t))
}

/// A score is at most 3 points per token.
pub proof fn lemma_score_bounds(toks: Seq<Seq<char>>, t: ToolInfo)
    ensures
        0 <= score(toks, t) <= 3 * toks.len(),
    decreases toks.len(),
{
    if toks.len() > 0 {
        lemma_score_bounds(toks.drop_last(), t);
    }
}

/// Scores a lowercased tool name and description against lowercased
/// tokens: 2 points per token found in the name, 1 per token found in the
/// description.
pub fn score_texts(toks: &Vec<String>, name: &str, desc: &str) -> (sc: u128)
    ensures
        sc as int == text_score(toks@.map_values(|t: String| t@), name@, desc@),
{
    let ghost ts = toks@.map_values(|t: String| t@);
    let mut sc: u128 = 0;
    let mut k: usize = 0;
    while k < toks.len()
        invariant
            k <= toks.len(),
            ts == toks@.map_values(|t: String| t@),
            sc as int == text_score(ts.take(k as int), name@, desc@),
            sc <= 3 * k,
        decreases toks.len() - k,
    {
        let tok = toks[k].as_str();
        let mut pts: u128 = 0;
        if contains_str(name, tok) {
            pts = pts + 2;
        }
        if contains_str(desc, tok) {
            pts = pts + 1;
        }
        proof {
            assert(ts.take(k + 1).drop_last() =~= ts.take(k as int));
            assert(ts.take(k + 1).last() == toks@[k as int]@);
        }
        sc = sc + pts;
        k = k + 1;
    }
    assert(ts.take(toks.len() as int) =~= ts);
    sc
}

/// Scores `tool` against `toks`.
fn score_tool(toks: &Vec<String>, tool: &ToolInfo) -> (sc: u128)
    ensures
        sc as int == score(toks@.map_values(|t: String| t@), *tool),
{
    let name = to_lowercase(tool.name.as_str());
    let desc = match &tool.description {
        Some(d) => to_lowercase(d.as_str()),
        None => to_lowercase(""),
    };
    proof {
        reveal_strlit("");
        assert(""@ =~= Seq::<char>::empty());
    }
    score_texts(toks, name.as_str(), desc.as_str())
}

// ---------------------------------------------------------------------------
// Hits and ranking
// ---------------------------------------------------------------------------

/// A server passes the filter: no filter, or the filter names it.
pub open spec fn server_ok(filter: Option<Seq<char>>, name: Seq<char>) -> bool {
    match filter {
        Some(f) => f == name,
        None => true,
    }
}

/// The hits among the tools of server `i`: `(score, i, j)` for every tool `j`
/// with a positive score, in tool order.
pub open spec fn tool_hits(toks: Seq<Seq<char>>, i: int, tools: Seq<ToolInfo>) -> Seq<(int, int, int)>
    decreases tools.len(),
{
    if tools.len() == 0 {
        Seq::empty()
    } else {
        let rest = tool_hits(toks, i, tools.drop_last());
        let sc = score(toks, tools.last());
        if sc > 0 {
            rest.push((sc, i, tools.len() - 1))
        } else {
            rest
        }
    }
}

/// All hits of the index, servers in index order, among the servers that
/// pass the filter.
pub open spec fn all_hits(
    toks: Seq<Seq<char>>,
    filter: Option<Seq<char>>,
    index: Seq<(String, Vec<ToolInfo>)>,
) -> Seq<(int, int, int)>
    decreases index.len(),
{
    if index.len() == 0 {
        Seq::empty()
    } else {
        let i = index.len() - 1;
        all_hits(toks, filter, index.drop_last()) + (if server_ok(filter, index[i].0@) {
            tool_hits(toks, i, index[i].1@)
        } else {
            Seq::empty()
        })
    }
}

/// `h` placed into `s` after every entry scoring at least as much as it.
pub open spec fn insert_ranked(s: Seq<(int, int, int)>, h: (int, int, int)) -> Seq<(int, int, int)>
    decreases s.len(),
{
    if s.len() == 0 {
        seq![h]
    } else if s[0].0 < h.0 {
        seq![h] + s
    } else {
        seq![s[0]] + insert_ranked(s.drop_first(), h)
    }
}

/// The hits best score first; hits of equal score keep their order (a
/// stable sort by descending score).
pub open spec fn rank(s: Seq<(int, int, int)>) -> Seq<(int, int, int)>
    decreases s.len(),
{
    if s.len() == 0 {
        Seq::empty()
    } else {
        insert_ranked(rank(s.drop_last()), s.last())
    }
}

/// The tool a hit designates, with its server's name.
pub open spec fn hit_entry(index: Seq<(String, Vec<ToolInfo>)>, h: (int, int, int)) -> (String, ToolInfo) {
    (index[h.1].0, index[h.1].1@[h.2])
}

/// What a search with tokens `toks` returns: the ranked hits, the first
/// `limit` of them, as `(server, tool)` pairs.
pub open spec fn search_result_toks(
    index: Seq<(String, Vec<ToolInfo>)>,
    toks: Seq<Seq<char>>,
    filter: Option<Seq<char>>,
    limit: int,
) -> Seq<(String, ToolInfo)> {
    let ranked = rank(all_hits(toks, filter, index));
    let kept = if limit < ranked.len() {
        ranked.take(limit)
    } else {
        ranked
    };
    kept.map_values(|h: (int, int, int)| hit_entry(index, h))
}

/// What `search` returns for `query`: the search with its tokens.
pub open spec fn search_result(
    index: Seq<(String, Vec<ToolInfo>)>,
    query: Seq<char>,
    filter: Option<Seq<char>>,
    limit: int,
) -> Seq<(String, ToolInfo)> {
    search_result_toks(index, tokens(query), filter, limit)
}

/// Inserting at the first position scoring below `h` is `insert_ranked`.
proof fn lemma_insert_ranked_at(s: Seq<(int, int, int)>, h: (int, int, int), p: int)
    requires
        0 <= p <= s.len(),
        forall|k: int| 0 <= k < p ==> (#[trigger] s[k]).0 >= h.0,
        p == s.len() || s[p].0 < h.0,
    ensures
        insert_ranked(s, h) == s.insert(p, h),
    decreases p,
{
    if s.len() == 0 {
        assert(s.insert(p, h) =~= seq![h]);
    } else if p == 0 {
        assert(s.insert(p, h) =~= seq![h] + s);
    } else {
        let t = s.drop_first();
        assert forall|k: int| 0 <= k < p - 1 implies (#[trigger] t[k]).0 >= h.0 by {
            assert(t[k] == s[k + 1]);
        }
        lemma_insert_ranked_at(t, h, p - 1);
        assert(s.insert(p, h) =~= seq![s[0]] + t.insert(p - 1, h));
    }
}

/// `insert_ranked` adds exactly `h`.
pub proof fn lemma_insert_ranked_contents(s: Seq<(int, int, int)>, h: (int, int, int))
    ensures
        insert_ranked(s, h).len() == s.len() + 1,
        forall|x: (int, int, int)| #[trigger] insert_ranked(s, h).contains(x) <==> (s.contains(x) || x == h),
    decreases s.len(),
{
    if s.len() == 0 {
        assert(insert_ranked(s, h) =~= seq![h]);
        assert forall|x: (int, int, int)| #[trigger] insert_ranked(s, h).contains(x) <==> (s.contains(x) || x == h) by {
            if x == h {
                assert(insert_ranked(s, h)[0] == h);
            }
        }
    } else if s[0].0 < h.0 {
        let r = seq![h] + s;
        assert(insert_ranked(s, h) == r);
        assert forall|x: (int, int, int)| #[trigger] r.contains(x) <==> (s.contains(x) || x == h) by {
            if r.contains(x) {
                let k = choose|k: int| 0 <= k < r.len() && r[k] == x;
                if k > 0 {
                    assert(s[k - 1] == x);
                }
            }
            if s.contains(x) {
                let k = choose|k: int| 0 <= k < s.len() && s[k] == x;
                assert(r[k + 1] == x);
            }
            if x == h {
                assert(r[0] == h);
            }
        }
    } else {
        let t = s.drop_first();
        lemma_insert_ranked_contents(t, h);
        let r = seq![s[0]] + insert_ranked(t, h);
        assert(insert_ranked(s, h) == r);
        assert forall|x: (int, int, int)| #[trigger] r.contains(x) <==> (s.contains(x) || x == h) by {
            if r.contains(x) {
                let k = choose|k: int| 0 <= k < r.len() && r[k] == x;
                if k == 0 {
                    assert(s[0] == x);
                } else {
                    assert(insert_ranked(t, h)[k - 1] == x);
                    assert(insert_ranked(t, h).contains(x));
                    if t.contains(x) {
                        let m = choose|m: int| 0 <= m < t.len() && t[m] == x;
                        assert(s[m + 1] == x);
                    }
                }
            }
            if s.contains(x) {
                let k = choose|k: int| 0 <= k < s.len() && s[k] == x;
                if k == 0 {
                    assert(r[0] == x);
                } else {
                    assert(t[k - 1] == x);
                    assert(insert_ranked(t, h).contains(x));
                    let m = choose|m: int| 0 <= m < insert_ranked(t, h).len() && insert_ranked(t, h)[m] == x;
                    assert(r[m + 1] == x);
                }
            }
            if x == h {
                assert(insert_ranked(t, h).contains(h));
                let m = choose|m: int| 0 <= m < insert_ranked(t, h).len() && insert_ranked(t, h)[m] == h;
                assert(r[m + 1] == h);
            }
        }
    }
}

/// Ranking neither loses nor invents hits.
pub proof fn lemma_rank_contents(s: Seq<(int, int, int)>)
    ensures
        rank(s).len() == s.len(),
        forall|x: (int, int, int)| #[trigger] rank(s).contains(x) <==> s.contains(x),
    decreases s.len(),
{
    if s.len() > 0 {
        let t = s.drop_last();
        lemma_rank_contents(t);
        lemma_insert_ranked_contents(rank(t), s.last());
        assert forall|x: (int, int, int)| #[trigger] rank(s).contains(x) <==> s.contains(x) by {
            if t.contains(x) {
                let k = choose|k: int| 0 <= k < t.len() && t[k] == x;
                assert(s[k] == x);
            }
            if s.contains(x) {
                let k = choose|k: int| 0 <= k < s.len() && s[k] == x;
                if k < s.len() - 1 {
                    assert(t[k] == x);
                }
            }
            if x == s.last() {
                assert(s[s.len() - 1] == x);
            }
        }
    }
}

/// Each hit among a server's tools names a tool of that server that scores
/// positively, with that score.
pub proof fn lemma_tool_hits_valid(toks: Seq<Seq<char>>, i: int, tools: Seq<ToolInfo>)
    ensures
        forall|k: int|
            0 <= k < tool_hits(toks, i, tools).len() ==> {
                let h = #[trigger] tool_hits(toks, i, tools)[k];
                &&& h.1 == i
                &&& 0 <= h.2 < tools.len()
                &&& h.0 == score(toks, tools[h.2])
                &&& h.0 > 0
            },
    decreases tools.len(),
{
    if tools.len() > 0 {
        let t = tools.drop_last();
        lemma_tool_hits_valid(toks, i, t);
        assert forall|k: int| 0 <= k < tool_hits(toks, i, t).len() implies #[trigger] t[tool_hits(
            toks,
            i,
            t,
        )[k].2] == tools[tool_hits(toks, i, t)[k].2] by {}
    }
}

/// Each hit of the index names a tool, of a server that passes the filter,
/// that scores positively, with that score.
pub proof fn lemma_all_hits_valid(
    toks: Seq<Seq<char>>,
    filter: Option<Seq<char>>,
    index: Seq<(String, Vec<ToolInfo>)>,
)
    ensures
        forall|k: int|
            0 <= k < all_hits(toks, filter, index).len() ==> {
                let h = #[trigger] all_hits(toks, filter, index)[k];
                &&& 0 <= h.1 < index.len()
                &&& server_ok(filter, index[h.1].0@)
                &&& 0 <= h.2 < index[h.1].1@.len()
                &&& h.0 == score(toks, index[h.1].1@[h.2])
                &&& h.0 > 0
            },
    decreases index.len(),
{
    if index.len() > 0 {
        let i = index.len() - 1;
        let front = index.drop_last();
        lemma_all_hits_valid(toks, filter, front);
        lemma_tool_hits_valid(toks, i, index[i].1@);
        let a = all_hits(toks, filter, front);
        let b = if server_ok(filter, index[i].0@) {
            tool_hits(toks, i, index[i].1@)
        } else {
            Seq::empty()
        };
        assert forall|k: int| 0 <= k < (a + b).len() implies {
            let h = #[trigger] (a + b)[k];
            &&& 0 <= h.1 < index.len()
            &&& server_ok(filter, index[h.1].0@)
            &&& 0 <= h.2 < index[h.1].1@.len()
            &&& h.0 == score(toks, index[h.1].1@[h.2])
            &&& h.0 > 0
        } by {
            if k < a.len() {
                assert((a + b)[k] == a[k]);
                assert(front[a[k].1] == index[a[k].1]);
            } else {
                assert((a + b)[k] == b[k - a.len()]);
            }
        }
    }
}

/// The integer view of an exec hit.
pub open spec fn hit_view(h: (u128, usize, usize)) -> (int, int, int) {
    (h.0 as int, h.1 as int, h.2 as int)
}

/// Inserts `h` into `ranked` where `insert_ranked` would put it.
fn insert_hit(ranked: &mut Vec<(u128, usize, usize)>, h: (u128, usize, usize))
    ensures
        final(ranked)@.map_values(|x: (u128, usize, usize)| hit_view(x)) == insert_ranked(
            old(ranked)@.map_values(|x: (u128, usize, usize)| hit_view(x)),
            hit_view(h),
        ),
{
    let ghost s = ranked@.map_values(|x: (u128, usize, usize)| hit_view(x));
    let mut p: usize = 0;
    while p < ranked.len() && ranked[p].0 >= h.0
        invariant
            p <= ranked@.len(),
            s == ranked@.map_values(|x: (u128, usize, usize)| hit_view(x)),
            forall|k: int| 0 <= k < p ==> (#[trigger] s[k]).0 >= h.0,
        decreases ranked.len() - p,
    {
        p = p + 1;
    }
    proof {
        lemma_insert_ranked_at(s, hit_view(h), p as int);
    }
    ranked.insert(p, h);
    assert(ranked@.map_values(|x: (u128, usize, usize)| hit_view(x)) =~= s.insert(
        p as int,
        hit_view(h),
    ));
}

/// Searches the tools of `index` for `query`: a tool matches when some query
/// word (case-insensitively) occurs in its name (2 points) or description
/// (1 point); only servers named `server` are searched when it is given. The
/// matches come best score first, ties in index order, at most `limit` of
/// them.
pub fn search(index: &[(String, Vec<ToolInfo>)], query: &str, server: Option<&str>, limit: usize) -> (r: Vec<
    (String, ToolInfo),
>)
    ensures
        r@ == search_result(
            index@,
            query@,
            match server {
                Some(s) => Some(s@),
                None => None,
            },
            limit as int,
        ),
        ascii_text(query@) ==> r@ == search_result_toks(
            index@,
            words(query@).map_values(|w: Seq<char>| ascii_lower(w)),
            match server {
                Some(s) => Some(s@),
                None => None,
            },
            limit as int,
        ),
{
    let ghost filter = match server {
        Some(s) => Some(s@),
        None => None::<Seq<char>>,
    };
    let toks = query_tokens(query);
    let ghost ts = tokens(query@);
    let ghost idx = index@;
    let mut ranked: Vec<(u128, usize, usize)> = Vec::new();
    let mut i: usize = 0;
    while i < index.len()
        invariant
            i <= index@.len(),
            idx == index@,
            filter == match server {
                Some(s) => Some(s@),
                None => None::<Seq<char>>,
            },
            toks@.map_values(|t: String| t@) == ts,
            ranked@.map_values(|x: (u128, usize, usize)| hit_view(x)) == rank(
                all_hits(ts, filter, idx.take(i as int)),
            ),
        decreases index.len() - i,
    {
        let name = &index[i].0;
        let tools = &index[i].1;
        let pass = match server {
            Some(s) => str_eq(s, name.as_str()),
            None => true,
        };
        proof {
            assert(pass == server_ok(filter, idx[i as int].0@));
            assert(idx.take(i + 1).drop_last() =~= idx.take(i as int));
            assert(idx.take(i + 1)[i as int] == idx[i as int]);
        }
        if pass {
            let ghost base = all_hits(ts, filter, idx.take(i as int));
            let mut j: usize = 0;
            while j < tools.len()
                invariant
                    i < index@.len(),
                    idx == index@,
                    *tools == idx[i as int].1,
                    j <= tools@.len(),
                    toks@.map_values(|t: String| t@) == ts,
                    ranked@.map_values(|x: (u128, usize, usize)| hit_view(x)) == rank(
                        base + tool_hits(ts, i as int, tools@.take(j as int)),
                    ),
                decreases tools.len() - j,
            {
                let sc = score_tool(&toks, &tools[j]);
                let ghost tk = tools@.take(j + 1);
                proof {
                    assert(tk.drop_last() =~= tools@.take(j as int));
                    assert(tk.last() == tools@[j as int]);
                }
                if sc > 0 {
                    proof {
                        assert(base + tool_hits(ts, i as int, tk) =~= (base + tool_hits(
                            ts,
                            i as int,
                            tools@.take(j as int),
                        )).push(hit_view((sc, i, j))));
                        assert((base + tool_hits(ts, i as int, tk)).drop_last() =~= base
                            + tool_hits(ts, i as int, tools@.take(j as int)));
                    }
                    insert_hit(&mut ranked, (sc, i, j));
                } else {
                    assert(base + tool_hits(ts, i as int, tk) =~= base + tool_hits(
                        ts,
                        i as int,
                        tools@.take(j as int),
                    ));
                }
                j = j + 1;
            }
            proof {
                assert(tools@.take(tools@.len() as int) =~= tools@);
            }
        } else {
            assert(all_hits(ts, filter, idx.take(i as int)) + Seq::<(int, int, int)>::empty() =~= all_hits(ts, filter, idx.take(i as int)));
        }
        proof {
            assert(all_hits(ts, filter, idx.take(i + 1)) == all_hits(ts, filter, idx.take(i as int)) + (if pass {
                tool_hits(ts, i as int, idx[i as int].1@)
            } else {
                Seq::empty()
            }));
        }
        i = i + 1;
    }
    proof {
        assert(idx.take(idx.len() as int) =~= idx);
    }
    let ghost full = rank(all_hits(ts, filter, idx));
    ranked.truncate(limit);
    let ghost kept = if (limit as int) < full.len() {
        full.take(limit as int)
    } else {
        full
    };
    assert(ranked@.map_values(|x: (u128, usize, usize)| hit_view(x)) =~= kept);
    proof {
        lemma_all_hits_valid(ts, filter, idx);
        lemma_rank_contents(all_hits(ts, filter, idx));
        assert forall|m: int| 0 <= m < ranked@.len() implies ranked@[m].1 < idx.len() && ranked@[m].2
            < idx[ranked@[m].1 as int].1@.len() by {
            assert(kept[m] == hit_view(ranked@[m]));
            assert(full[m] == kept[m]);
            assert(full.contains(kept[m]));
            let hits = all_hits(ts, filter, idx);
            assert(hits.contains(kept[m]));
            let q = choose|q: int| 0 <= q < hits.len() && hits[q] == kept[m];
            assert(hits[q] == kept[m]);
        }
    }
    let mut out: Vec<(String, ToolInfo)> = Vec::new();
    let mut k: usize = 0;
    while k < ranked.len()
        invariant
            k <= ranked@.len(),
            idx == index@,
            ranked@.map_values(|x: (u128, usize, usize)| hit_view(x)) == kept,
            forall|m: int| 0 <= m < ranked@.len() ==> ranked@[m].1 < idx.len() && ranked@[m].2
                < idx[ranked@[m].1 as int].1@.len(),
            out@ == kept.take(k as int).map_values(|h: (int, int, int)| hit_entry(idx, h)),
        decreases ranked.len() - k,
    {
        let (_, si, ti) = ranked[k];
        let pair = (index[si].0.clone(), index[si].1[ti].duplicate());
        proof {
            assert(kept[k as int] == hit_view(ranked@[k as int]));
            assert(kept.take(k + 1).map_values(|h: (int, int, int)| hit_entry(idx, h)) =~= kept.take(
                k as int,
            ).map_values(|h: (int, int, int)| hit_entry(idx, h)).push(pair));
        }
        out.push(pair);
        k = k + 1;
    }
    assert(kept.take(kept.len() as int) =~= kept);
    out
}

// ---------------------------------------------------------------------------
// Laws
// ---------------------------------------------------------------------------

/// Scores never increase along `s`.
pub open spec fn best_first(s: Seq<(int, int, int)>) -> bool {
    forall|a: int, b: int| 0 <= a < b < s.len() ==> (#[trigger] s[a]).0 >= (#[trigger] s[b]).0
}

/// Inserting into a best-first sequence keeps it best first.
proof fn lemma_insert_ranked_best_first(s: Seq<(int, int, int)>, h: (int, int, int))
    requires
        best_first(s),
    ensures
        best_first(insert_ranked(s, h)),
    decreases s.len(),
{
    if s.len() == 0 {
    } else if s[0].0 < h.0 {
        let r = seq![h] + s;
        assert(insert_ranked(s, h) == r);
        assert forall|a: int, b: int| 0 <= a < b < r.len() implies (#[trigger] r[a]).0 >= (
        #[trigger] r[b]).0 by {
            if a == 0 {
                assert(r[b] == s[b - 1]);
                if b - 1 > 0 {
                    assert(s[0].0 >= s[b - 1].0);
                }
            } else {
                assert(r[a] == s[a - 1] && r[b] == s[b - 1]);
            }
        }
    } else {
        let t = s.drop_first();
        assert forall|a: int, b: int| 0 <= a < b < t.len() implies (#[trigger] t[a]).0 >= (
        #[trigger] t[b]).0 by {
            assert(t[a] == s[a + 1] && t[b] == s[b + 1]);
        }
        lemma_insert_ranked_best_first(t, h);
        lemma_insert_ranked_contents(t, h);
        let it = insert_ranked(t, h);
        let r = seq![s[0]] + it;
        assert(insert_ranked(s, h) == r);
        assert forall|a: int, b: int| 0 <= a < b < r.len() implies (#[trigger] r[a]).0 >= (
        #[trigger] r[b]).0 by {
            if a == 0 {
                assert(r[b] == it[b - 1]);
                assert(it.contains(it[b - 1]));
                if t.contains(it[b - 1]) {
                    let m = choose|m: int| 0 <= m < t.len() && t[m] == it[b - 1];
                    assert(s[m + 1] == t[m]);
                    assert(s[0].0 >= s[m + 1].0);
                }
            } else {
                assert(r[a] == it[a - 1] && r[b] == it[b - 1]);
            }
        }
    }
}

/// Ranking puts the best scores first.
pub proof fn lemma_rank_best_first(s: Seq<(int, int, int)>)
    ensures
        best_first(rank(s)),
    decreases s.len(),
{
    if s.len() > 0 {
        lemma_rank_best_first(s.drop_last());
        lemma_insert_ranked_best_first(rank(s.drop_last()), s.last());
    }
}

/// The hits `search` keeps, best first: the first `limit` of the ranking.
pub open spec fn kept_hits(
    index: Seq<(String, Vec<ToolInfo>)>,
    query: Seq<char>,
    filter: Option<Seq<char>>,
    limit: int,
) -> Seq<(int, int, int)> {
    let ranked = rank(all_hits(tokens(query), filter, index));
    if limit < ranked.len() {
        ranked.take(limit)
    } else {
        ranked
    }
}

/// What `search` promises of its result:
/// - each result is a tool of the index, of a server that passes the filter,
///   whose score against the query's words is positive;
/// - results come best score first;
/// - there are `limit` results, or every matching tool when fewer match;
/// - a matching tool that is left out scores no better than any result.
pub proof fn search_law(
    index: Seq<(String, Vec<ToolInfo>)>,
    query: Seq<char>,
    filter: Option<Seq<char>>,
    limit: int,
)
    requires
        0 <= limit,
    ensures
        ({
            let kept = kept_hits(index, query, filter, limit);
            let hits = all_hits(tokens(query), filter, index);
            &&& search_result(index, query, filter, limit) == kept.map_values(
                |h: (int, int, int)| hit_entry(index, h),
            )
            &&& forall|k: int|
                0 <= k < kept.len() ==> {
                    let h = #[trigger] kept[k];
                    &&& 0 <= h.1 < index.len()
                    &&& server_ok(filter, index[h.1].0@)
                    &&& 0 <= h.2 < index[h.1].1@.len()
                    &&& h.0 == score(tokens(query), index[h.1].1@[h.2])
                    &&& h.0 > 0
                }
            &&& best_first(kept)
            &&& kept.len() == if limit < hits.len() {
                limit
            } else {
                hits.len() as int
            }
            &&& forall|h: (int, int, int)|
                #![trigger hits.contains(h)]
                hits.contains(h) && !kept.contains(h) ==> forall|k: int|
                    0 <= k < kept.len() ==> (#[trigger] kept[k]).0 >= h.0
        }),
{
    let toks = tokens(query);
    let hits = all_hits(toks, filter, index);
    let ranked = rank(hits);
    let kept = kept_hits(index, query, filter, limit);
    lemma_all_hits_valid(toks, filter, index);
    lemma_rank_contents(hits);
    lemma_rank_best_first(hits);
    assert forall|k: int| 0 <= k < kept.len() implies {
        let h = #[trigger] kept[k];
        &&& 0 <= h.1 < index.len()
        &&& server_ok(filter, index[h.1].0@)
        &&& 0 <= h.2 < index[h.1].1@.len()
        &&& h.0 == score(toks, index[h.1].1@[h.2])
        &&& h.0 > 0
    } by {
        assert(kept[k] == ranked[k]);
        assert(ranked.contains(ranked[k]));
        let q = choose|q: int| 0 <= q < hits.len() && hits[q] == ranked[k];
        assert(hits[q] == kept[k]);
    }
    assert forall|a: int, b: int| 0 <= a < b < kept.len() implies (#[trigger] kept[a]).0 >= (
    #[trigger] kept[b]).0 by {
        assert(kept[a] == ranked[a] && kept[b] == ranked[b]);
    }
    assert forall|h: (int, int, int)|
        #![trigger hits.contains(h)]
        hits.contains(h) && !kept.contains(h) implies forall|k: int|
        0 <= k < kept.len() ==> (#[trigger] kept[k]).0 >= h.0 by {
        assert(ranked.contains(h));
        let p = choose|p: int| 0 <= p < ranked.len() && ranked[p] == h;
        if p < kept.len() {
            assert(kept[p] == h);
        }
        assert forall|k: int| 0 <= k < kept.len() implies (#[trigger] kept[k]).0 >= h.0 by {
            assert(kept[k] == ranked[k]);
        }
    }
}

/// Hit `x` designates a tool earlier in the index than hit `y` does.
pub open spec fn index_before(x: (int, int, int), y: (int, int, int)) -> bool {
    x.1 < y.1 || (x.1 == y.1 && x.2 < y.2)
}

/// Hits of equal score come in index order.
pub open spec fn ties_in_index_order(s: Seq<(int, int, int)>) -> bool {
    forall|a: int, b: int|
        0 <= a < b < s.len() && (#[trigger] s[a]).0 == (#[trigger] s[b]).0 ==> index_before(s[a], s[b])
}

/// The hits come in index order.
pub open spec fn in_index_order(s: Seq<(int, int, int)>) -> bool {
    forall|a: int, b: int| 0 <= a < b < s.len() ==> index_before(#[trigger] s[a], #[trigger] s[b])
}

/// The hits of one server come in tool order.
proof fn lemma_tool_hits_ordered(toks: Seq<Seq<char>>, i: int, tools: Seq<ToolInfo>)
    ensures
        in_index_order(tool_hits(toks, i, tools)),
    decreases tools.len(),
{
    if tools.len() > 0 {
        let front = tools.drop_last();
        lemma_tool_hits_ordered(toks, i, front);
        lemma_tool_hits_valid(toks, i, front);
        let rest = tool_hits(toks, i, front);
        if score(toks, tools.last()) > 0 {
            let out = rest.push((score(toks, tools.last()), i, tools.len() - 1));
            assert forall|a: int, b: int| 0 <= a < b < out.len() implies index_before(
                #[trigger] out[a],
                #[trigger] out[b],
            ) by {
                if b == rest.len() {
                    assert(out[a] == rest[a]);
                } else {
                    assert(out[a] == rest[a] && out[b] == rest[b]);
                }
            }
        }
    }
}

/// The hits of the index come in index order.
proof fn lemma_all_hits_ordered(toks: Seq<Seq<char>>, filter: Option<Seq<char>>, index: Seq<(String, Vec<ToolInfo>)>)
    ensures
        in_index_order(all_hits(toks, filter, index)),
    decreases index.len(),
{
    if index.len() > 0 {
        let i = index.len() - 1;
        let front = index.drop_last();
        lemma_all_hits_ordered(toks, filter, front);
        lemma_all_hits_valid(toks, filter, front);
        lemma_tool_hits_ordered(toks, i, index[i].1@);
        lemma_tool_hits_valid(toks, i, index[i].1@);
        let a0 = all_hits(toks, filter, front);
        let b0 = if server_ok(filter, index[i].0@) {
            tool_hits(toks, i, index[i].1@)
        } else {
            Seq::empty()
        };
        let out = a0 + b0;
        assert forall|a: int, b: int| 0 <= a < b < out.len() implies index_before(
            #[trigger] out[a],
            #[trigger] out[b],
        ) by {
            if b < a0.len() {
                assert(out[a] == a0[a] && out[b] == a0[b]);
            } else if a < a0.len() {
                assert(out[a] == a0[a] && out[b] == b0[b - a0.len()]);
                assert(a0[a].1 < front.len());
            } else {
                assert(out[a] == b0[a - a0.len()] && out[b] == b0[b - a0.len()]);
            }
        }
    }
}

/// Inserting a hit that comes after all others in index order keeps ties in
/// index order.
proof fn lemma_insert_ranked_ties(s: Seq<(int, int, int)>, h: (int, int, int))
    requires
        best_first(s),
        ties_in_index_order(s),
        forall|k: int| 0 <= k < s.len() ==> index_before(#[trigger] s[k], h),
    ensures
        ties_in_index_order(insert_ranked(s, h)),
    decreases s.len(),
{
    if s.len() == 0 {
    } else if s[0].0 < h.0 {
        let r = seq![h] + s;
        assert(insert_ranked(s, h) == r);
        assert forall|a: int, b: int|
            0 <= a < b < r.len() && (#[trigger] r[a]).0 == (#[trigger] r[b]).0 implies index_before(
            r[a],
            r[b],
        ) by {
            if a == 0 {
                assert(r[b] == s[b - 1]);
                if b - 1 > 0 {
                    assert(s[0].0 >= s[b - 1].0);
                }
            } else {
                assert(r[a] == s[a - 1] && r[b] == s[b - 1]);
            }
        }
    } else {
        let t = s.drop_first();
        assert forall|a: int, b: int| 0 <= a < b < t.len() implies (#[trigger] t[a]).0 >= (
        #[trigger] t[b]).0 by {
            assert(t[a] == s[a + 1] && t[b] == s[b + 1]);
        }
        assert forall|a: int, b: int|
            0 <= a < b < t.len() && (#[trigger] t[a]).0 == (#[trigger] t[b]).0 implies index_before(
            t[a],
            t[b],
        ) by {
            assert(t[a] == s[a + 1] && t[b] == s[b + 1]);
        }
        assert forall|k: int| 0 <= k < t.len() implies index_before(#[trigger] t[k], h) by {
            assert(t[k] == s[k + 1]);
        }
        lemma_insert_ranked_ties(t, h);
        lemma_insert_ranked_contents(t, h);
        let it = insert_ranked(t, h);
        let r = seq![s[0]] + it;
        assert(insert_ranked(s, h) == r);
        assert forall|a: int, b: int|
            0 <= a < b < r.len() && (#[trigger] r[a]).0 == (#[trigger] r[b]).0 implies index_before(
            r[a],
            r[b],
        ) by {
            if a == 0 {
                assert(r[b] == it[b - 1]);
                assert(it.contains(it[b - 1]));
                if t.contains(it[b - 1]) {
                    let m = choose|m: int| 0 <= m < t.len() && t[m] == it[b - 1];
                    assert(s[m + 1] == t[m]);
                }
            } else {
                assert(r[a] == it[a - 1] && r[b] == it[b - 1]);
            }
        }
    }
}

/// Ranking hits that come in index order leaves ties in index order.
proof fn lemma_rank_ties(s: Seq<(int, int, int)>)
    requires
        in_index_order(s),
    ensures
        ties_in_index_order(rank(s)),
    decreases s.len(),
{
    if s.len() > 0 {
        let front = s.drop_last();
        assert forall|a: int, b: int| 0 <= a < b < front.len() implies index_before(
            #[trigger] front[a],
            #[trigger] front[b],
        ) by {
            assert(front[a] == s[a] && front[b] == s[b]);
        }
        lemma_rank_ties(front);
        lemma_rank_best_first(front);
        lemma_rank_contents(front);
        let rf = rank(front);
        assert forall|k: int| 0 <= k < rf.len() implies index_before(#[trigger] rf[k], s.last()) by {
            assert(rf.contains(rf[k]));
            let m = choose|m: int| 0 <= m < front.len() && front[m] == rf[k];
            assert(s[m] == front[m]);
        }
        lemma_insert_ranked_ties(rf, s.last());
    }
}

/// Matches of equal score come in index order: by server position in the
/// index, then by tool position.
pub proof fn search_ties_law(
    index: Seq<(String, Vec<ToolInfo>)>,
    query: Seq<char>,
    filter: Option<Seq<char>>,
    limit: int,
)
    requires
        0 <= limit,
    ensures
        ties_in_index_order(kept_hits(index, query, filter, limit)),
{
    let hits = all_hits(tokens(query), filter, index);
    lemma_all_hits_ordered(tokens(query), filter, index);
    lemma_rank_ties(hits);
    let ranked = rank(hits);
    let kept = kept_hits(index, query, filter, limit);
    assert forall|a: int, b: int|
        0 <= a < b < kept.len() && (#[trigger] kept[a]).0 == (#[trigger] kept[b]).0 implies index_before(
        kept[a],
        kept[b],
    ) by {
        assert(kept[a] == ranked[a] && kept[b] == ranked[b]);
    }
}


// ---------------------------------------------------------------------------
// Case, empty queries and the server filter
// ---------------------------------------------------------------------------

/// Upper-casing ASCII letters neither makes nor removes white space.
proof fn lemma_upper_white_space(c: char)
    ensures
        is_white_space(ascii_upper_char(c)) == is_white_space(c),
        ascii_lower_char(ascii_upper_char(c)) == ascii_lower_char(c),
{
}

/// The words of an upper-cased text are the upper-cased words.
proof fn lemma_words_upper(s: Seq<char>, i: int, run: Option<int>)
    requires
        0 <= i <= s.len(),
        run matches Some(st) ==> 0 <= st <= i,
    ensures
        words_after(ascii_upper(s), i, run) == words_after(s, i, run).map_values(
            |w: Seq<char>| ascii_upper(w),
        ),
    decreases s.len() - i,
{
    let u = ascii_upper(s);
    if i >= s.len() {
        match run {
            Some(st) => {
                assert(u.subrange(st, u.len() as int) =~= ascii_upper(s.subrange(st, s.len() as int)));
                assert(words_after(s, i, run).map_values(|w: Seq<char>| ascii_upper(w)) =~= seq![
                    ascii_upper(s.subrange(st, s.len() as int)),
                ]);
            },
            None => {
                assert(words_after(s, i, run).map_values(|w: Seq<char>| ascii_upper(w)) =~= Seq::<
                    Seq<char>,
                >::empty());
            },
        }
    } else {
        lemma_upper_white_space(s[i]);
        assert(u[i] == ascii_upper_char(s[i]));
        if is_white_space(s[i]) {
            lemma_words_upper(s, i + 1, None);
            let head: Seq<Seq<char>> = match run {
                Some(st) => seq![s.subrange(st, i)],
                None => Seq::empty(),
            };
            let uhead: Seq<Seq<char>> = match run {
                Some(st) => seq![u.subrange(st, i)],
                None => Seq::empty(),
            };
            match run {
                Some(st) => {
                    assert(u.subrange(st, i) =~= ascii_upper(s.subrange(st, i)));
                },
                None => {},
            }
            assert(uhead =~= head.map_values(|w: Seq<char>| ascii_upper(w)));
            assert((head + words_after(s, i + 1, None)).map_values(|w: Seq<char>| ascii_upper(w))
                =~= head.map_values(|w: Seq<char>| ascii_upper(w)) + words_after(s, i + 1, None).map_values(
                |w: Seq<char>| ascii_upper(w),
            ));
        } else {
            let next = match run {
                Some(st) => Some(st),
                None => Some(i),
            };
            lemma_words_upper(s, i + 1, next);
        }
    }
}

/// Matching is case-insensitive for ASCII queries: a search for an ASCII
/// query (whose words lowercase `A`-`Z` only, as `search` ensures) gives the
/// same result as one for the query with its letters upper-cased.
pub proof fn search_case_law(
    index: Seq<(String, Vec<ToolInfo>)>,
    query: Seq<char>,
    filter: Option<Seq<char>>,
    limit: int,
)
    ensures
        ascii_text(query) ==> ascii_text(ascii_upper(query)),
        search_result_toks(
            index,
            words(ascii_upper(query)).map_values(|w: Seq<char>| ascii_lower(w)),
            filter,
            limit,
        ) == search_result_toks(index, words(query).map_values(|w: Seq<char>| ascii_lower(w)), filter, limit),
{
    if ascii_text(query) {
        assert forall|i: int| 0 <= i < ascii_upper(query).len() implies (#[trigger] ascii_upper(query)[i]) as u32
            <= 0x7F by {
            assert(ascii_upper(query)[i] == ascii_upper_char(query[i]));
            assert(query[i] as u32 <= 0x7F);
        }
    }
    lemma_words_upper(query, 0, None);
    let ws = words(query);
    let a = words(ascii_upper(query)).map_values(|w: Seq<char>| ascii_lower(w));
    let b = ws.map_values(|w: Seq<char>| ascii_lower(w));
    assert forall|k: int| 0 <= k < b.len() implies #[trigger] a[k] == b[k] by {
        let w = ws[k];
        assert forall|j: int| 0 <= j < w.len() implies #[trigger] ascii_lower(ascii_upper(w))[j] == ascii_lower(w)[j] by {
            lemma_upper_white_space(w[j]);
        }
        assert(ascii_lower(ascii_upper(w)) =~= ascii_lower(w));
    }
    assert(a =~= b);
}

/// No token, no points.
proof fn lemma_no_tokens_no_hits(i: int, tools: Seq<ToolInfo>)
    ensures
        tool_hits(Seq::empty(), i, tools) == Seq::<(int, int, int)>::empty(),
    decreases tools.len(),
{
    if tools.len() > 0 {
        lemma_no_tokens_no_hits(i, tools.drop_last());
    }
}

/// With no tokens the index has no hits.
proof fn lemma_no_tokens_no_all_hits(filter: Option<Seq<char>>, index: Seq<(String, Vec<ToolInfo>)>)
    ensures
        all_hits(Seq::empty(), filter, index) == Seq::<(int, int, int)>::empty(),
    decreases index.len(),
{
    if index.len() > 0 {
        lemma_no_tokens_no_all_hits(filter, index.drop_last());
        lemma_no_tokens_no_hits(index.len() - 1, index[index.len() - 1].1@);
        assert(Seq::<(int, int, int)>::empty() + Seq::<(int, int, int)>::empty() =~= Seq::<
            (int, int, int),
        >::empty());
    }
}

/// A query without words, or a limit of zero, finds nothing.
pub proof fn search_empty_law(
    index: Seq<(String, Vec<ToolInfo>)>,
    query: Seq<char>,
    filter: Option<Seq<char>>,
    limit: int,
)
    requires
        0 <= limit,
    ensures
        words(query).len() == 0 ==> search_result(index, query, filter, limit).len() == 0,
        search_result(index, query, filter, 0).len() == 0,
{
    if words(query).len() == 0 {
        assert(tokens(query) =~= Seq::<Seq<char>>::empty());
        lemma_no_tokens_no_all_hits(filter, index);
        lemma_rank_contents(all_hits(tokens(query), filter, index));
    }
    lemma_rank_contents(all_hits(tokens(query), filter, index));
}

/// The servers of `index` named `s`, in index order.
pub open spec fn servers_named(index: Seq<(String, Vec<ToolInfo>)>, s: Seq<char>) -> Seq<
    (String, Vec<ToolInfo>),
>
    decreases index.len(),
{
    if index.len() == 0 {
        Seq::empty()
    } else {
        let rest = servers_named(index.drop_last(), s);
        if index.last().0@ == s {
            rest.push(index.last())
        } else {
            rest
        }
    }
}

/// Where a hit of `index` lands in `servers_named(index, s)`.
pub open spec fn moved_hit(index: Seq<(String, Vec<ToolInfo>)>, s: Seq<char>, h: (int, int, int)) -> (
    int,
    int,
    int,
) {
    (h.0, servers_named(index.take(h.1), s).len() as int, h.2)
}

/// Moving the hits of one server to position `c`.
proof fn lemma_tool_hits_moved(toks: Seq<Seq<char>>, i: int, c: int, tools: Seq<ToolInfo>)
    ensures
        tool_hits(toks, c, tools) == tool_hits(toks, i, tools).map_values(
            |h: (int, int, int)| (h.0, c, h.2),
        ),
    decreases tools.len(),
{
    if tools.len() > 0 {
        lemma_tool_hits_moved(toks, i, c, tools.drop_last());
        let rest = tool_hits(toks, i, tools.drop_last());
        let sc = score(toks, tools.last());
        if sc > 0 {
            assert(rest.push((sc, i, tools.len() - 1)).map_values(|h: (int, int, int)| (h.0, c, h.2))
                =~= rest.map_values(|h: (int, int, int)| (h.0, c, h.2)).push((sc, c, tools.len() - 1)));
        }
    }
}

/// The hits of the servers named `s` are the filtered hits, moved.
proof fn lemma_all_hits_named(toks: Seq<Seq<char>>, s: Seq<char>, index: Seq<(String, Vec<ToolInfo>)>)
    ensures
        all_hits(toks, None, servers_named(index, s)) == all_hits(toks, Some(s), index).map_values(
            |h: (int, int, int)| moved_hit(index, s, h),
        ),
    decreases index.len(),
{
    if index.len() > 0 {
        let n = index.len() - 1;
        let front = index.drop_last();
        let f = servers_named(front, s);
        lemma_all_hits_named(toks, s, front);
        lemma_all_hits_valid(toks, Some(s), front);
        let a = all_hits(toks, Some(s), front);
        assert(index.take(n) =~= front);
        assert forall|k: int| 0 <= k < a.len() implies #[trigger] moved_hit(index, s, a[k]) == moved_hit(
            front,
            s,
            a[k],
        ) by {
            assert(index.take(a[k].1) =~= front.take(a[k].1));
        }
        assert(a.map_values(|h: (int, int, int)| moved_hit(index, s, h)) =~= a.map_values(
            |h: (int, int, int)| moved_hit(front, s, h),
        ));
        if index.last().0@ == s {
            let t = tool_hits(toks, n, index[n].1@);
            lemma_tool_hits_moved(toks, n, f.len() as int, index[n].1@);
            lemma_tool_hits_valid(toks, n, index[n].1@);
            assert(t.map_values(|h: (int, int, int)| moved_hit(index, s, h)) =~= t.map_values(
                |h: (int, int, int)| (h.0, f.len() as int, h.2),
            ));
            let g = servers_named(index, s);
            assert(g.drop_last() =~= f);
            assert(g[g.len() - 1] == index[n]);
            assert((a + t).map_values(|h: (int, int, int)| moved_hit(index, s, h)) =~= a.map_values(
                |h: (int, int, int)| moved_hit(index, s, h),
            ) + t.map_values(|h: (int, int, int)| moved_hit(index, s, h)));
        } else {
            assert(a + Seq::<(int, int, int)>::empty() =~= a);
        }
    }
}

/// The entry at a named server's position in `servers_named`.
proof fn lemma_named_at(index: Seq<(String, Vec<ToolInfo>)>, s: Seq<char>, i: int)
    requires
        0 <= i < index.len(),
        index[i].0@ == s,
    ensures
        servers_named(index.take(i), s).len() < servers_named(index, s).len(),
        servers_named(index, s)[servers_named(index.take(i), s).len() as int] == index[i],
    decreases index.len(),
{
    let n = index.len() - 1;
    let front = index.drop_last();
    if i == n {
        assert(index.take(i) =~= front);
    } else {
        lemma_named_at(front, s, i);
        assert(index.take(i) =~= front.take(i));
    }
}

/// Ranking commutes with a relabelling that keeps scores.
proof fn lemma_insert_ranked_map(
    s: Seq<(int, int, int)>,
    h: (int, int, int),
    f: spec_fn((int, int, int)) -> (int, int, int),
)
    requires
        forall|x: (int, int, int)| #[trigger] f(x).0 == x.0,
    ensures
        insert_ranked(s.map_values(f), f(h)) == insert_ranked(s, h).map_values(f),
    decreases s.len(),
{
    let m = s.map_values(f);
    if s.len() == 0 {
        assert(insert_ranked(s, h).map_values(f) =~= seq![f(h)]);
    } else {
        assert(m[0] == f(s[0]));
        assert(f(s[0]).0 == s[0].0 && f(h).0 == h.0);
        if s[0].0 < h.0 {
            assert((seq![h] + s).map_values(f) =~= seq![f(h)] + m);
        } else {
            assert(m.drop_first() =~= s.drop_first().map_values(f));
            lemma_insert_ranked_map(s.drop_first(), h, f);
            assert((seq![s[0]] + insert_ranked(s.drop_first(), h)).map_values(f) =~= seq![f(s[0])]
                + insert_ranked(s.drop_first(), h).map_values(f));
        }
    }
}

/// Ranking commutes with a relabelling that keeps scores.
proof fn lemma_rank_map(s: Seq<(int, int, int)>, f: spec_fn((int, int, int)) -> (int, int, int))
    requires
        forall|x: (int, int, int)| #[trigger] f(x).0 == x.0,
    ensures
        rank(s.map_values(f)) == rank(s).map_values(f),
    decreases s.len(),
{
    if s.len() > 0 {
        let m = s.map_values(f);
        assert(m.drop_last() =~= s.drop_last().map_values(f));
        assert(m.last() == f(s.last()));
        lemma_rank_map(s.drop_last(), f);
        lemma_insert_ranked_map(rank(s.drop_last()), s.last(), f);
    } else {
        assert(s.map_values(f) =~= Seq::<(int, int, int)>::empty());
        assert(rank(s).map_values(f) =~= Seq::<(int, int, int)>::empty());
    }
}

/// Searching one server is searching the index cut down to the servers of
/// that name: the same results, in the same order, each from that server.
pub proof fn search_filter_law(
    index: Seq<(String, Vec<ToolInfo>)>,
    query: Seq<char>,
    s: Seq<char>,
    limit: int,
)
    requires
        0 <= limit,
    ensures
        search_result(index, query, Some(s), limit) == search_result(
            servers_named(index, s),
            query,
            None,
            limit,
        ),
        forall|k: int|
            0 <= k < search_result(index, query, Some(s), limit).len() ==> (#[trigger] search_result(
                index,
                query,
                Some(s),
                limit,
            )[k]).0@ == s,
{
    let toks = tokens(query);
    let g = servers_named(index, s);
    let hits = all_hits(toks, Some(s), index);
    let f = |h: (int, int, int)| moved_hit(index, s, h);
    lemma_all_hits_named(toks, s, index);
    lemma_all_hits_valid(toks, Some(s), index);
    assert(all_hits(toks, None, g) == hits.map_values(f));
    lemma_rank_map(hits, f);
    lemma_rank_contents(hits);
    let ranked = rank(hits);
    let kept = if limit < ranked.len() {
        ranked.take(limit)
    } else {
        ranked
    };
    let kept2 = if limit < ranked.map_values(f).len() {
        ranked.map_values(f).take(limit)
    } else {
        ranked.map_values(f)
    };
    if limit < ranked.len() {
        assert(ranked.map_values(f).take(limit) =~= ranked.take(limit).map_values(f));
    }
    assert(kept2 =~= kept.map_values(f));
    let r1 = search_result(index, query, Some(s), limit);
    let r2 = search_result(g, query, None, limit);
    assert(r1 == kept.map_values(|h: (int, int, int)| hit_entry(index, h)));
    assert(r2 == kept2.map_values(|h: (int, int, int)| hit_entry(g, h)));
    assert forall|k: int| 0 <= k < kept.len() implies #[trigger] hit_entry(g, f(kept[k])) == hit_entry(
        index,
        kept[k],
    ) && hit_entry(index, kept[k]).0@ == s by {
        let h = kept[k];
        assert(h == ranked[k]);
        assert(ranked.contains(h));
        let q = choose|q: int| 0 <= q < hits.len() && hits[q] == h;
        assert(hits[q] == h);
        lemma_named_at(index, s, h.1);
    }
    assert(r2 =~= r1);
}


// ---------------------------------------------------------------------------
// The hits are exactly the matching tools
// ---------------------------------------------------------------------------

/// Tool `j` of server `i` matches: the server passes the filter and the tool
/// scores positively.
pub open spec fn is_match(
    toks: Seq<Seq<char>>,
    filter: Option<Seq<char>>,
    index: Seq<(String, Vec<ToolInfo>)>,
    i: int,
    j: int,
) -> bool {
    &&& 0 <= i < index.len()
    &&& server_ok(filter, index[i].0@)
    &&& 0 <= j < index[i].1@.len()
    &&& score(toks, index[i].1@[j]) > 0
}

/// The number of tools among `tools` that score positively.
pub open spec fn tool_match_count(toks: Seq<Seq<char>>, tools: Seq<ToolInfo>) -> nat
    decreases tools.len(),
{
    if tools.len() == 0 {
        0
    } else {
        tool_match_count(toks, tools.drop_last()) + (if score(toks, tools.last()) > 0 {
            1nat
        } else {
            0nat
        })
    }
}

/// The number of matching tools of the index.
pub open spec fn match_count(
    toks: Seq<Seq<char>>,
    filter: Option<Seq<char>>,
    index: Seq<(String, Vec<ToolInfo>)>,
) -> nat
    decreases index.len(),
{
    if index.len() == 0 {
        0
    } else {
        let i = index.len() - 1;
        match_count(toks, filter, index.drop_last()) + (if server_ok(filter, index[i].0@) {
            tool_match_count(toks, index[i].1@)
        } else {
            0nat
        })
    }
}

/// Every positively scoring tool of a server is among its hits, and there
/// are as many hits as such tools.
proof fn lemma_tool_hits_complete(toks: Seq<Seq<char>>, i: int, tools: Seq<ToolInfo>)
    ensures
        tool_hits(toks, i, tools).len() == tool_match_count(toks, tools),
        forall|j: int|
            0 <= j < tools.len() && score(toks, #[trigger] tools[j]) > 0 ==> tool_hits(toks, i, tools).contains(
                (score(toks, tools[j]), i, j),
            ),
    decreases tools.len(),
{
    if tools.len() > 0 {
        let front = tools.drop_last();
        lemma_tool_hits_complete(toks, i, front);
        let rest = tool_hits(toks, i, front);
        let out = tool_hits(toks, i, tools);
        assert forall|j: int|
            0 <= j < tools.len() && score(toks, #[trigger] tools[j]) > 0 implies out.contains(
                (score(toks, tools[j]), i, j),
            ) by {
            if j < tools.len() - 1 {
                assert(front[j] == tools[j]);
                let k = choose|k: int| 0 <= k < rest.len() && rest[k] == (score(toks, front[j]), i, j);
                assert(out[k] == rest[k]);
            } else {
                assert(out[rest.len() as int] == (score(toks, tools[j]), i, j));
            }
        }
    }
}

/// Every matching tool of the index is among its hits, and there are as
/// many hits as matching tools.
proof fn lemma_all_hits_complete(
    toks: Seq<Seq<char>>,
    filter: Option<Seq<char>>,
    index: Seq<(String, Vec<ToolInfo>)>,
)
    ensures
        all_hits(toks, filter, index).len() == match_count(toks, filter, index),
        forall|i: int, j: int|
            #[trigger] is_match(toks, filter, index, i, j) ==> all_hits(toks, filter, index).contains(
                (score(toks, index[i].1@[j]), i, j),
            ),
    decreases index.len(),
{
    if index.len() > 0 {
        let n = index.len() - 1;
        let front = index.drop_last();
        lemma_all_hits_complete(toks, filter, front);
        lemma_tool_hits_complete(toks, n, index[n].1@);
        let a = all_hits(toks, filter, front);
        let b = if server_ok(filter, index[n].0@) {
            tool_hits(toks, n, index[n].1@)
        } else {
            Seq::empty()
        };
        let all = all_hits(toks, filter, index);
        assert(all == a + b);
        assert forall|i: int, j: int| #[trigger] is_match(toks, filter, index, i, j) implies all.contains(
            (score(toks, index[i].1@[j]), i, j),
        ) by {
            if i < n {
                assert(front[i] == index[i]);
                assert(is_match(toks, filter, front, i, j));
                let k = choose|k: int| 0 <= k < a.len() && a[k] == (score(toks, front[i].1@[j]), i, j);
                assert(all[k] == a[k]);
            } else {
                let t = index[n].1@;
                assert(score(toks, t[j]) > 0);
                let k = choose|k: int| 0 <= k < b.len() && b[k] == (score(toks, t[j]), n, j);
                assert(all[a.len() + k] == b[k]);
            }
        }
    }
}

/// The search keeps the best matches: it returns as many results as the
/// limit allows, or every matching tool when fewer match, and a matching
/// tool that is left out scores no better than any returned one.
pub proof fn search_count_law(
    index: Seq<(String, Vec<ToolInfo>)>,
    query: Seq<char>,
    filter: Option<Seq<char>>,
    limit: int,
)
    requires
        0 <= limit,
    ensures
        ({
            let toks = tokens(query);
            let m = match_count(toks, filter, index) as int;
            let kept = kept_hits(index, query, filter, limit);
            &&& search_result(index, query, filter, limit) == kept.map_values(
                |h: (int, int, int)| hit_entry(index, h),
            )
            &&& search_result(index, query, filter, limit).len() == if limit < m {
                limit
            } else {
                m
            }
            &&& forall|i: int, j: int|
                #[trigger] is_match(toks, filter, index, i, j) && !kept.contains(
                    (score(toks, index[i].1@[j]), i, j),
                ) ==> forall|k: int| 0 <= k < kept.len() ==> (#[trigger] kept[k]).0 >= score(toks, index[i].1@[j])
        }),
{
    let toks = tokens(query);
    search_law(index, query, filter, limit);
    lemma_all_hits_complete(toks, filter, index);
    let kept = kept_hits(index, query, filter, limit);
    let hits = all_hits(toks, filter, index);
    assert forall|i: int, j: int|
        #[trigger] is_match(toks, filter, index, i, j) && !kept.contains((score(toks, index[i].1@[j]), i, j)) implies forall|k: int|
            0 <= k < kept.len() ==> (#[trigger] kept[k]).0 >= score(toks, index[i].1@[j]) by {
        let h = (score(toks, index[i].1@[j]), i, j);
        assert(hits.contains(h));
    }
}


// ---------------------------------------------------------------------------
// Name hits outrank description hits
// ---------------------------------------------------------------------------

/// One token earns 2 points when the name contains it and 1 when the
/// description contains it; so for a single token, a tool matching by name
/// only outscores a tool matching by description only.
pub proof fn points_law(tok: Seq<char>, name: Seq<char>, desc: Seq<char>, name2: Seq<char>, desc2: Seq<char>)
    ensures
        text_score(seq![tok], name, desc) == (if contains_seq(name, tok) {
            2int
        } else {
            0int
        }) + (if contains_seq(desc, tok) {
            1int
        } else {
            0int
        }),
        contains_seq(name, tok) && !contains_seq(desc, tok) ==> text_score(seq![tok], name, desc) == 2,
        !contains_seq(name2, tok) && contains_seq(desc2, tok) ==> text_score(seq![tok], name2, desc2) == 1,
        contains_seq(name, tok) && !contains_seq(desc, tok) && !contains_seq(name2, tok) && contains_seq(
            desc2,
            tok,
        ) ==> text_score(seq![tok], name, desc) > text_score(seq![tok], name2, desc2),
{
    let one = seq![tok];
    assert(one.drop_last() =~= Seq::<Seq<char>>::empty());
    assert(one.last() == tok);
    assert(text_score(one.drop_last(), name, desc) == 0);
    assert(text_score(one, name, desc) == text_points(tok, name, desc));
    assert(text_score(one.drop_last(), name2, desc2) == 0);
    assert(text_score(one, name2, desc2) == text_points(tok, name2, desc2));
}

/// For a one-word query, a tool whose name holds the word ranks ahead of a
/// tool whose description alone holds it: whenever the second is returned,
/// the first is returned before it.
pub proof fn name_first_law(
    index: Seq<(String, Vec<ToolInfo>)>,
    query: Seq<char>,
    filter: Option<Seq<char>>,
    limit: int,
    i1: int,
    j1: int,
    i2: int,
    j2: int,
)
    requires
        0 <= limit,
        tokens(query).len() == 1,
        0 <= i1 < index.len() && 0 <= j1 < index[i1].1@.len(),
        0 <= i2 < index.len() && 0 <= j2 < index[i2].1@.len(),
        server_ok(filter, index[i1].0@),
        server_ok(filter, index[i2].0@),
        contains_seq(name_text(index[i1].1@[j1]), tokens(query)[0]),
        !contains_seq(description_text(index[i1].1@[j1]), tokens(query)[0]),
        !contains_seq(name_text(index[i2].1@[j2]), tokens(query)[0]),
        contains_seq(description_text(index[i2].1@[j2]), tokens(query)[0]),
    ensures
        ({
            let kept = kept_hits(index, query, filter, limit);
            kept.contains((1int, i2, j2)) ==> exists|x: int, y: int|
                #![trigger kept[x], kept[y]]
                0 <= x < y < kept.len() && kept[x] == (2int, i1, j1) && kept[y] == (1int, i2, j2)
        }),
{
    let toks = tokens(query);
    let tok = toks[0];
    assert(toks =~= seq![tok]);
    let ta = index[i1].1@[j1];
    let tb = index[i2].1@[j2];
    points_law(tok, name_text(ta), description_text(ta), name_text(tb), description_text(tb));
    assert(score(toks, ta) == 2);
    assert(score(toks, tb) == 1);
    search_law(index, query, filter, limit);
    search_count_law(index, query, filter, limit);
    let kept = kept_hits(index, query, filter, limit);
    if kept.contains((1int, i2, j2)) {
        let y = choose|y: int| 0 <= y < kept.len() && kept[y] == (1int, i2, j2);
        assert(is_match(toks, filter, index, i1, j1));
        if !kept.contains((2int, i1, j1)) {
            assert(kept[y].0 >= score(toks, index[i1].1@[j1]));
        }
        let x = choose|x: int| 0 <= x < kept.len() && kept[x] == (2int, i1, j1);
        if y < x {
            assert(kept[y].0 >= kept[x].0);
        }
        assert(x != y);
        assert(0 <= x < y < kept.len() && kept[x] == (2int, i1, j1) && kept[y] == (1int, i2, j2));
    }
}

} // verus!
