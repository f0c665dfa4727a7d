//! Usage counters for the `--stats` report, and the report itself.
use crate::names::{has_name, lookup, NameMap};
use crate::text::{decimal, decimal_string};
use vstd::prelude::*;
use vstd::string::*;

verus! {

/// Usage counters. Tokens are estimated as bytes / 4.
pub struct StatsData {
    /// Context cost the mux itself adds at startup (its own tool list, bytes).
    pub meta_bytes: u64,
    /// Per meta-tool call counts.
    pub meta_calls: NameMap<u64>,
    /// Schema bytes served on demand via search_tools/describe_tool.
    pub schema_bytes_served: u64,
    /// Proxied upstream calls (call_tool + exposed routes).
    pub tool_calls_proxied: u64,
}

/// A counter's value, 0 when it has none.
pub open spec fn count_of(m: Seq<(Seq<char>, u64)>, tool: Seq<char>) -> int {
    match lookup(m, tool) {
        Some(n) => n as int,
        None => 0,
    }
}

impl StatsData {
    /// All counters at zero.
    pub fn new() -> (s: StatsData)
        ensures
            s.meta_bytes == 0,
            s.meta_calls@.len() == 0,
            s.schema_bytes_served == 0,
            s.tool_calls_proxied == 0,
    {
        StatsData { meta_bytes: 0, meta_calls: NameMap::new(), schema_bytes_served: 0, tool_calls_proxied: 0 }
    }

    /// Counts one call of meta-tool `tool`.
    pub fn record_meta(&mut self, tool: &str)
        requires
            count_of(old(self).meta_calls@, tool@) < u64::MAX,
        ensures
            count_of(final(self).meta_calls@, tool@) == count_of(old(self).meta_calls@, tool@) + 1,
            forall|t: Seq<char>| t != tool@ ==> lookup(final(self).meta_calls@, t) == lookup(old(self).meta_calls@, t),
            final(self).meta_bytes == old(self).meta_bytes,
            final(self).schema_bytes_served == old(self).schema_bytes_served,
            final(self).tool_calls_proxied == old(self).tool_calls_proxied,
    {
        let n = match self.meta_calls.get(tool) {
            Some(c) => *c,
            None => 0,
        };
        self.meta_calls.insert(tool.to_string(), n + 1);
    }

    /// Counts `schema_bytes` of schema served on demand.
    pub fn record_served(&mut self, schema_bytes: u64)
        requires
            old(self).schema_bytes_served + schema_bytes <= u64::MAX,
        ensures
            final(self).schema_bytes_served == old(self).schema_bytes_served + schema_bytes,
            final(self).meta_calls@ == old(self).meta_calls@,
            final(self).meta_bytes == old(self).meta_bytes,
            final(self).tool_calls_proxied == old(self).tool_calls_proxied,
    {
        self.schema_bytes_served = self.schema_bytes_served + schema_bytes;
    }

    /// Counts one proxied upstream call.
    pub fn record_proxied(&mut self)
        requires
            old(self).tool_calls_proxied < u64::MAX,
        ensures
            final(self).tool_calls_proxied == old(self).tool_calls_proxied + 1,
            final(self).meta_calls@ == old(self).meta_calls@,
            final(self).meta_bytes == old(self).meta_bytes,
            final(self).schema_bytes_served == old(self).schema_bytes_served,
    {
        self.tool_calls_proxied = self.tool_calls_proxied + 1;
    }
}

/// The sum of `s`.
pub open spec fn sum_of(s: Seq<u64>) -> int
    decreases s.len(),
{
    if s.len() == 0 {
        0
    } else {
        sum_of(s.drop_last()) + s.last()
    }
}

/// The sum of the counters of `m`.
pub open spec fn calls_total(m: Seq<(Seq<char>, u64)>) -> int
    decreases m.len(),
{
    if m.len() == 0 {
        0
    } else {
        calls_total(m.drop_last()) + m.last().1
    }
}

/// One report line per counter: `  name: n`.
pub open spec fn calls_lines(m: Seq<(Seq<char>, u64)>) -> Seq<char>
    decreases m.len(),
{
    if m.len() == 0 {
        Seq::empty()
    } else {
        calls_lines(m.drop_last()) + "  "@ + m.last().0 + ": "@ + decimal(m.last().1 as nat) + "\n"@
    }
}

/// The report's sums fit in 64 bits: the schema bytes of all cached tools,
/// a hundred times the bytes saved, and the meta-tool calls.
pub open spec fn report_fits(tool_sizes: Seq<u64>, stats: StatsData) -> bool {
    let withheld = sum_of(tool_sizes);
    let saved = if withheld > stats.meta_bytes {
        withheld - stats.meta_bytes
    } else {
        0
    };
    &&& withheld <= u64::MAX
    &&& saved * 100 <= u64::MAX
    &&& calls_total(stats.meta_calls@) <= u64::MAX
}

/// The startup-context part of the report.
pub open spec fn savings_text(tool_sizes: Seq<u64>, stats: StatsData) -> Seq<char> {
    let withheld = sum_of(tool_sizes);
    let saved = if withheld > stats.meta_bytes {
        withheld - stats.meta_bytes
    } else {
        0
    };
    let pct = if withheld == 0 {
        0
    } else {
        saved * 100 / withheld
    };
    if tool_sizes.len() == 0 {
        "No cached index yet \u{2014} start the mux once to build it.\n"@
    } else {
        "Startup context per session:\n  without mux: ~"@ + decimal((withheld / 4) as nat) + " tokens ("@
            + decimal(tool_sizes.len()) + " tools)\n  with mux:    ~"@ + decimal((stats.meta_bytes / 4) as nat)
            + " tokens (meta-tools)\n  saved:       ~"@ + decimal((saved / 4) as nat) + " tokens ("@ + decimal(
            pct as nat,
        ) + "%)\n"@
    }
}

/// The whole report, given the JSON sizes of the cached tools.
pub open spec fn report_text(tool_sizes: Seq<u64>, stats: StatsData) -> Seq<char> {
    let total = calls_total(stats.meta_calls@);
    "mcp-multiplexer stats\n\n"@ + savings_text(tool_sizes, stats) + "\nOn-demand schemas served: ~"@
        + decimal((stats.schema_bytes_served / 4) as nat) + " tokens\nTool calls proxied: "@ + decimal(
        stats.tool_calls_proxied as nat,
    ) + "\nMeta-tool calls: "@ + decimal(total as nat) + "\n"@ + (if total > 0 {
        calls_lines(stats.meta_calls@)
    } else {
        Seq::empty()
    }) + "\nTokens ~ bytes/4 (heuristic, not a real tokenizer).\n"@
}

/// The sum of `s`, when it fits.
fn checked_sum(s: &Vec<u64>) -> (r: Option<u64>)
    ensures
        match r {
            Some(v) => v == sum_of(s@),
            None => sum_of(s@) > u64::MAX,
        },
{
    let mut acc: u64 = 0;
    let mut i: usize = 0;
    while i < s.len()
        invariant
            i <= s@.len(),
            acc == sum_of(s@.take(i as int)),
        decreases s.len() - i,
    {
        assert(s@.take(i + 1).drop_last() =~= s@.take(i as int));
        if acc > u64::MAX - s[i] {
            proof {
                lemma_sum_grows(s@, i + 1);
            }
            return None;
        }
        acc = acc + s[i];
        i = i + 1;
    }
    assert(s@.take(s@.len() as int) =~= s@);
    Some(acc)
}

/// Sums of prefixes do not exceed the whole sum.
proof fn lemma_sum_grows(s: Seq<u64>, k: int)
    requires
        0 <= k <= s.len(),
    ensures
        sum_of(s.take(k)) <= sum_of(s),
    decreases s.len() - k,
{
    if k < s.len() {
        lemma_sum_grows(s, k + 1);
        assert(s.take(k + 1).drop_last() =~= s.take(k));
    } else {
        assert(s.take(k) =~= s);
    }
}

/// The sum of the counters of `m`, when it fits.
fn checked_calls_total(m: &NameMap<u64>) -> (r: Option<u64>)
    ensures
        match r {
            Some(v) => v == calls_total(m@),
            None => calls_total(m@) > u64::MAX,
        },
{
    let mut acc: u64 = 0;
    let mut i: usize = 0;
    while i < m.len()
        invariant
            i <= m@.len(),
            acc == calls_total(m@.take(i as int)),
        decreases m@.len() - i,
    {
        assert(m@.take(i + 1).drop_last() =~= m@.take(i as int));
        let n = *m.value_at(i);
        if acc > u64::MAX - n {
            proof {
                lemma_calls_total_grows(m@, i + 1);
            }
            return None;
        }
        acc = acc + n;
        i = i + 1;
    }
    assert(m@.take(m@.len() as int) =~= m@);
    Some(acc)
}

/// Totals of prefixes do not exceed the whole total.
proof fn lemma_calls_total_grows(m: Seq<(Seq<char>, u64)>, k: int)
    requires
        0 <= k <= m.len(),
    ensures
        calls_total(m.take(k)) <= calls_total(m),
    decreases m.len() - k,
{
    if k < m.len() {
        lemma_calls_total_grows(m, k + 1);
        assert(m.take(k + 1).drop_last() =~= m.take(k));
    } else {
        assert(m.take(k) =~= m);
    }
}

/// Whether the report's sums fit in 64 bits.
pub fn report_fits_exec(tool_sizes: &Vec<u64>, stats: &StatsData) -> (b: bool)
    ensures
        b == report_fits(tool_sizes@, *stats),
{
    let withheld = match checked_sum(tool_sizes) {
        Some(w) => w,
        None => {
            return false;
        },
    };
    let saved = if withheld > stats.meta_bytes {
        withheld - stats.meta_bytes
    } else {
        0
    };
    if saved > u64::MAX / 100 {
        return false;
    }
    match checked_calls_total(&stats.meta_calls) {
        Some(_) => true,
        None => false,
    }
}

/// The startup-context part of the report.
fn savings_part(tool_sizes: &Vec<u64>, stats: &StatsData) -> (r: String)
    requires
        report_fits(tool_sizes@, *stats),
    ensures
        r@ == savings_text(tool_sizes@, *stats),
{
    let mut out = String::new();
    if tool_sizes.len() == 0 {
        out.append("No cached index yet \u{2014} start the mux once to build it.\n");
        return out;
    }
    let withheld = checked_sum(tool_sizes).unwrap();
    let saved = if withheld > stats.meta_bytes {
        withheld - stats.meta_bytes
    } else {
        0
    };
    let pct = if withheld == 0 {
        0
    } else {
        saved * 100 / withheld
    };
    let a = decimal_string(withheld / 4);
    let b = decimal_string(tool_sizes.len() as u64);
    let c = decimal_string(stats.meta_bytes / 4);
    let d = decimal_string(saved / 4);
    let e = decimal_string(pct);
    out.append("Startup context per session:\n  without mux: ~");
    out.append(a.as_str());
    out.append(" tokens (");
    out.append(b.as_str());
    out.append(" tools)\n  with mux:    ~");
    out.append(c.as_str());
    out.append(" tokens (meta-tools)\n  saved:       ~");
    out.append(d.as_str());
    out.append(" tokens (");
    out.append(e.as_str());
    out.append("%)\n");
    out
}

/// One line per meta-tool counter.
fn calls_part(m: &NameMap<u64>) -> (r: String)
    ensures
        r@ == calls_lines(m@),
{
    let mut out = String::new();
    let mut i: usize = 0;
    while i < m.len()
        invariant
            i <= m@.len(),
            out@ == calls_lines(m@.take(i as int)),
        decreases m@.len() - i,
    {
        assert(m@.take(i + 1).drop_last() =~= m@.take(i as int));
        let n = decimal_string(*m.value_at(i));
        out.append("  ");
        out.append(m.name_at(i).as_str());
        out.append(": ");
        out.append(n.as_str());
        out.append("\n");
        i = i + 1;
    }
    assert(m@.take(m@.len() as int) =~= m@);
    out
}

/// The counters part of the report.
fn counters_part(stats: &StatsData, total: u64) -> (r: String)
    requires
        total == calls_total(stats.meta_calls@),
    ensures
        r@ == "\nOn-demand schemas served: ~"@ + decimal((stats.schema_bytes_served / 4) as nat)
            + " tokens\nTool calls proxied: "@ + decimal(stats.tool_calls_proxied as nat)
            + "\nMeta-tool calls: "@ + decimal(total as nat) + "\n"@ + (if total > 0 {
            calls_lines(stats.meta_calls@)
        } else {
            Seq::empty()
        }),
{
    let a = decimal_string(stats.schema_bytes_served / 4);
    let b = decimal_string(stats.tool_calls_proxied);
    let c = decimal_string(total);
    let mut out = String::new();
    out.append("\nOn-demand schemas served: ~");
    out.append(a.as_str());
    out.append(" tokens\nTool calls proxied: ");
    out.append(b.as_str());
    out.append("\nMeta-tool calls: ");
    out.append(c.as_str());
    out.append("\n");
    if total > 0 {
        let lines = calls_part(&stats.meta_calls);
        out.append(lines.as_str());
    } else {
        assert(out@ + Seq::<char>::empty() =~= out@);
    }
    out
}

/// The `--stats` report: what the mux saves at startup (from the JSON sizes
/// of the cached tools against its own meta-tool bytes), the schemas served
/// on demand, and the call counters.
pub fn report(tool_sizes: &Vec<u64>, stats: &StatsData) -> (r: String)
    requires
        report_fits(tool_sizes@, *stats),
    ensures
        r@ == report_text(tool_sizes@, *stats),
{
    let total = checked_calls_total(&stats.meta_calls).unwrap();
    let savings = savings_part(tool_sizes, stats);
    let counters = counters_part(stats, total);
    let mut out = String::new();
    out.append("mcp-multiplexer stats\n\n");
    out.append(savings.as_str());
    out.append(counters.as_str());
    out.append("\nTokens ~ bytes/4 (heuristic, not a real tokenizer).\n");
    out
}

} // verus!
