# mcp_multiplexer

One MCP server fronting many: clients see a handful of meta-tools
(`list_servers`, `list_tools`, `search_tools`, `describe_tool`, `call_tool`,
`refresh_tools`, `authorize_server`) instead of every upstream tool schema.

## Layout

- `src/` — the verified library (Verus): the multiplexer's rules and
  decisions, each with its contract:
  - `config` — servers, `allow`/`deny` globs, `${VAR}` expansion, the
    consistency checks, duplicate-name refusal;
  - `search` — tokenising, scoring and ranking tools (with laws: results are
    real matches, best first, ties in index order, the best are kept);
  - `server` — `server__tool` routing, server selection, blocked/unknown tool
    refusals, summaries, refresh results in name order;
  - `upstream` — how a server is reached and for how long, the request
    headers (a bearer token replaces a configured `authorization`), the
    connection errors, status words, which listed tools enter the index, and the
    self-healing call policy (at most one retry);
  - `oauth` — the callback request line, redirect/callback addresses, the
    authorization request to start, re-reporting an open flow, the metadata
    discovery URLs and which answer is taken, what a failed token request means;
  - `cache` — where the cache directory is (`$XDG_CACHE_HOME`, else
    `$HOME/.cache`, else the current directory), the index key, the index file, what a load gives back, and how
    a fresh listing updates the index;
  - `stats` — usage counters and the `--stats` report;
  - `names`, `text`, `model` — the ordered name map, string operations, and
    the tool index entry.
- `app/` — the program around it: command line, logging, file and network
  I/O, serde, and the async MCP plumbing (rmcp), which asks the library at
  each decision it makes. What stays there is the waiting and fetching
  itself: reading the environment, connecting, fetching the metadata URLs,
  and holding rmcp's authorization state.
- `tests/` — tests of the library.
