//! The MCP server's decisions: which vault a tool call targets, in what
//! order the vaults of a scan are listed, how a JSON-RPC message is
//! answered, and which tool calls are refused. Reading stdin, walking directories and writing JSON are the
//! caller's.

use vstd::prelude::*;
use crate::model::strs;
use crate::sort::{is_permutation_of_range, is_stably_sorted, key_view, keys_view, KeyPartV, SortKey};
use crate::text::{concat, owned};

verus! {

/// Which vaults the server serves.
pub enum McpMode {
    /// One vault, fixed at startup.
    Single(String),
    /// Every vault found under a root; tools select one by its `vault`
    /// argument.
    Scan(String),
}

/// A vault found by a scan: its name (the schema's, or its directory's when
/// it cannot load), its directory, and why it cannot load, if it cannot.
pub struct VaultEntry {
    pub name: String,
    pub dir: String,
    pub load_error: Option<String>,
}

pub open spec fn entry_key(e: VaultEntry) -> Seq<KeyPartV> {
    seq![KeyPartV::Text(e.name@), KeyPartV::Text(e.dir@)]
}

/// The order a scan lists its vaults in: by name, then directory.
pub fn scan_order(entries: &Vec<VaultEntry>) -> (r: Vec<usize>)
    ensures
        is_permutation_of_range(r@, entries@.len() as int),
        is_stably_sorted(entries@.map_values(|e: VaultEntry| entry_key(e)), r@),
{
    let mut keys: Vec<SortKey> = Vec::new();
    let mut i: usize = 0;
    while i < entries.len()
        invariant
            i <= entries.len(),
            keys@.len() == i,
            forall|j: int| 0 <= j < i ==> key_view(#[trigger] keys@[j]) == entry_key(entries@[j]),
        decreases entries.len() - i,
    {
        let mut k = crate::sort::empty_key();
        crate::sort::push_text(&mut k, entries[i].name.as_str());
        crate::sort::push_text(&mut k, entries[i].dir.as_str());
        assert(key_view(k) =~= entry_key(entries@[i as int]));
        keys.push(k);
        i = i + 1;
    }
    assert(keys_view(keys@) =~= entries@.map_values(|e: VaultEntry| entry_key(e)));
    crate::sort::sort_indices(&keys)
}

/// The path components of a `/`-separated path: `/` for a leading
/// separator, then its non-empty segments other than `.`.
pub open spec fn components(s: Seq<char>) -> Seq<Seq<char>> {
    let segs = keep_segments(crate::schema_ops::split_char(s, '/'));
    if s.len() > 0 && s[0] == '/' {
        seq!["/"@] + segs
    } else {
        segs
    }
}

pub open spec fn keep_segments(v: Seq<Seq<char>>) -> Seq<Seq<char>>
    decreases v.len(),
{
    if v.len() == 0 {
        seq![]
    } else {
        let before = keep_segments(v.drop_last());
        if v.last().len() == 0 || v.last() == "."@ {
            before
        } else {
            before.push(v.last())
        }
    }
}

/// `Path::ends_with`: the components of `tail` end the components of `dir`.
pub open spec fn path_ends_with(dir: Seq<char>, tail: Seq<char>) -> bool {
    let d = components(dir);
    let t = components(tail);
    t.len() <= d.len() && d.skip(d.len() - t.len()) == t
}

pub fn path_components(s: &str) -> (r: Vec<String>)
    ensures
        strs(r@) == components(s@),
{
    let v = crate::text::chars_of(s);
    let mut out: Vec<String> = Vec::new();
    if v.len() > 0 && v[0] == '/' {
        out.push(owned("/"));
    }
    let ghost lead = strs(out@);
    let mut cur: Vec<char> = Vec::new();
    let mut done: Vec<Vec<char>> = Vec::new();
    let mut i: usize = 0;
    while i < v.len()
        invariant
            i <= v.len(),
            done@.map_values(|c: Vec<char>| c@).push(cur@) == crate::schema_ops::split_char(v@.take(i as int), '/'),
        decreases v.len() - i,
    {
        proof {
            assert(v@.take(i + 1).drop_last() =~= v@.take(i as int));
        }
        let ghost before = done@.map_values(|c: Vec<char>| c@);
        let ghost old_cur = cur@;
        if v[i] == '/' {
            let c = cur;
            done.push(c);
            cur = Vec::new();
            proof {
                assert(done@.map_values(|c: Vec<char>| c@) =~= before.push(old_cur));
                assert(done@.map_values(|c: Vec<char>| c@).push(cur@) =~= crate::schema_ops::split_char(v@.take(i + 1), '/'));
            }
        } else {
            cur.push(v[i]);
            proof {
                assert(done@.map_values(|c: Vec<char>| c@).push(cur@) =~= before.push(old_cur).update(before.len() as int, old_cur.push(v@[i as int])));
            }
        }
        i = i + 1;
    }
    let ghost pre = done@.map_values(|c: Vec<char>| c@).push(cur@);
    done.push(cur);
    proof {
        assert(v@.take(v.len() as int) =~= v@);
        assert(done@.map_values(|c: Vec<char>| c@) =~= pre);
    }
    let ghost parts = done@.map_values(|c: Vec<char>| c@);
    let mut k: usize = 0;
    while k < done.len()
        invariant
            k <= done.len(),
            parts == done@.map_values(|c: Vec<char>| c@),
            strs(out@) == lead + keep_segments(parts.take(k as int)),
        decreases done.len() - k,
    {
        proof {
            assert(parts.take(k + 1).drop_last() =~= parts.take(k as int));
            assert(parts[k as int] == done@[k as int]@);
        }
        let seg = crate::text::string_of(&done[k]);
        if seg.as_str().is_empty() || crate::text::str_eq(seg.as_str(), ".") {
        } else {
            let ghost o = strs(out@);
            out.push(seg);
            proof {
                assert(strs(out@) =~= o.push(parts[k as int]));
            }
        }
        k = k + 1;
    }
    proof {
        assert(parts.take(k as int) =~= parts);
        assert(v@ == s@);
        if s@.len() > 0 && s@[0] == '/' {
            assert(lead =~= seq!["/"@]);
        } else {
            assert(lead =~= Seq::<Seq<char>>::empty());
            assert(strs(out@) =~= keep_segments(parts));
        }
    }
    out
}

fn ends_with_path(dir: &str, tail: &str) -> (r: bool)
    ensures
        r == path_ends_with(dir@, tail@),
{
    let d = path_components(dir);
    let t = path_components(tail);
    if t.len() > d.len() {
        return false;
    }
    let off = d.len() - t.len();
    let mut i: usize = 0;
    while i < t.len()
        invariant
            i <= t.len(),
            off + t.len() == d.len(),
            strs(d@) == components(dir@),
            strs(t@) == components(tail@),
            forall|j: int| 0 <= j < i ==> strs(d@)[off + j] == strs(t@)[j],
        decreases t.len() - i,
    {
        proof {
            assert(strs(d@)[off + i] == d@[off + i]@);
            assert(strs(t@)[i as int] == t@[i as int]@);
        }
        if !crate::text::str_eq(d[off + i].as_str(), t[i].as_str()) {
            proof {
                assert(strs(d@).skip(off as int)[i as int] != strs(t@)[i as int]);
                assert(components(dir@) == strs(d@));
                assert(components(tail@) == strs(t@));
                assert(components(dir@).skip(off as int) != components(tail@));
            }
            return false;
        }
        i = i + 1;
    }
    proof {
        assert(strs(d@).skip(off as int) =~= strs(t@));
    }
    true
}

/// The loadable entries, in order.
pub open spec fn loadable(es: Seq<VaultEntry>) -> Seq<VaultEntry>
    decreases es.len(),
{
    if es.len() == 0 {
        seq![]
    } else {
        let before = loadable(es.drop_last());
        if es.last().load_error is None {
            before.push(es.last())
        } else {
            before
        }
    }
}

/// The first entry called `w` or whose directory ends with `w`.
pub open spec fn first_wanted(es: Seq<VaultEntry>, w: Seq<char>) -> Option<int>
    decreases es.len(),
{
    if es.len() == 0 {
        None
    } else if es[0].name@ == w || path_ends_with(es[0].dir@, w) {
        Some(0)
    } else {
        match first_wanted(es.drop_first(), w) {
            Some(i) => Some(i + 1),
            None => None,
        }
    }
}

pub open spec fn names_of(es: Seq<VaultEntry>) -> Seq<Seq<char>> {
    es.map_values(|e: VaultEntry| e.name@)
}

/// Which vault a call targets: the single vault, or among the loadable
/// ones of a scan the one asked for, else the only one.
pub open spec fn select_spec(mode: McpMode, entries: Seq<VaultEntry>, wanted: Option<Seq<char>>) -> Result<Seq<char>, Seq<char>> {
    match mode {
        McpMode::Single(dir) => Ok(dir@),
        McpMode::Scan(root) => {
            let l = loadable(entries);
            match wanted {
                Some(w) => match first_wanted(l, w) {
                    Some(i) => Ok(l[i].dir@),
                    None => Err("no vault `"@ + w + "` — available: "@ + crate::summary::join_with(names_of(l), ", "@)),
                },
                None => if l.len() == 1 {
                    Ok(l[0].dir@)
                } else if l.len() == 0 {
                    Err("no loadable vault under "@ + root@)
                } else {
                    Err("several vaults here — pass `vault`: "@ + crate::summary::join_with(names_of(l), ", "@))
                },
            }
        },
    }
}

pub open spec fn text_result(r: Result<String, String>) -> Result<Seq<char>, Seq<char>> {
    match r {
        Ok(s) => Ok(s@),
        Err(m) => Err(m@),
    }
}

/// Resolve which vault a call targets; `entries` are the scan's vaults in
/// listing order (ignored for a single vault).
pub fn select_vault(mode: &McpMode, entries: &Vec<VaultEntry>, wanted: Option<&str>) -> (r: Result<String, String>)
    ensures
        text_result(r) == select_spec(*mode, entries@, crate::query::opt_str(wanted)),
{
    let root = match mode {
        McpMode::Single(dir) => {
            return Ok(dir.clone());
        },
        McpMode::Scan(root) => root,
    };
    let mut idx: Vec<usize> = Vec::new();
    let mut names: Vec<String> = Vec::new();
    let mut i: usize = 0;
    while i < entries.len()
        invariant
            i <= entries.len(),
            idx@.len() == names@.len(),
            idx@.map_values(|k: usize| entries@[k as int]) == loadable(entries@.take(i as int)),
            strs(names@) == names_of(loadable(entries@.take(i as int))),
            forall|j: int| 0 <= j < idx@.len() ==> idx@[j] < entries@.len(),
        decreases entries.len() - i,
    {
        proof {
            assert(entries@.take(i + 1).drop_last() =~= entries@.take(i as int));
        }
        if entries[i].load_error.is_none() {
            let ghost oi = idx@;
            let ghost on = strs(names@);
            idx.push(i);
            names.push(entries[i].name.clone());
            proof {
                assert(idx@.map_values(|k: usize| entries@[k as int]) =~= oi.map_values(|k: usize| entries@[k as int]).push(entries@[i as int]));
                assert(strs(names@) =~= on.push(entries@[i as int].name@));
                assert(names_of(loadable(entries@.take(i + 1))) =~= names_of(loadable(entries@.take(i as int))).push(entries@[i as int].name@));
            }
        }
        i = i + 1;
    }
    proof {
        assert(entries@.take(i as int) =~= entries@);
    }
    let ghost l = loadable(entries@);
    match wanted {
        Some(w) => {
            let mut j: usize = 0;
            assert(l.skip(0) =~= l);
            while j < idx.len()
                invariant
                    j <= idx.len(),
                    l == loadable(entries@),
                    crate::query::opt_str(wanted) == Some(w@),
                    mode is Scan,
                    idx@.map_values(|k: usize| entries@[k as int]) == l,
                    forall|q: int| 0 <= q < idx@.len() ==> idx@[q] < entries@.len(),
                    first_wanted(l, w@) == match first_wanted(l.skip(j as int), w@) {
                        Some(x) => Some(x + j),
                        None => None::<int>,
                    },
                decreases idx.len() - j,
            {
                let e = &entries[idx[j]];
                proof {
                    assert(l.skip(j as int)[0] == l[j as int]);
                    assert(l[j as int] == entries@[idx@[j as int] as int]);
                    assert(l.skip(j as int).drop_first() =~= l.skip(j + 1));
                }
                if crate::text::str_eq(e.name.as_str(), w) || ends_with_path(e.dir.as_str(), w) {
                    proof {
                        assert(first_wanted(l.skip(j as int), w@) == Some(0int));
                        assert(first_wanted(l, w@) == Some(j as int));
                    }
                    let d = e.dir.clone();
                    assert(d@ == l[j as int].dir@);
                    return Ok(d);
                }
                j = j + 1;
            }
            let mut m = concat("no vault `", w);
            m.append("` — available: ");
            m.append(crate::summary::join_strings(&names, ", ").as_str());
            Err(m)
        },
        None => {
            proof {
                assert(l.len() == idx@.len());
            }
            if idx.len() == 1 {
                proof {
                    assert(l[0] == entries@[idx@[0] as int]);
                }
                Ok(entries[idx[0]].dir.clone())
            } else if idx.len() == 0 {
                Err(concat("no loadable vault under ", root.as_str()))
            } else {
                let mut m = owned("several vaults here — pass `vault`: ");
                m.append(crate::summary::join_strings(&names, ", ").as_str());
                Err(m)
            }
        },
    }
}

/// How the server answers one JSON-RPC message.
#[derive(PartialEq, Eq, Structural, Clone, Copy, Debug)]
pub enum RpcAction {
    /// A notification (no id): no answer.
    Silent,
    Initialize,
    Ping,
    ListTools,
    CallTool,
    /// An error naming the unknown method.
    Unknown,
}

pub open spec fn rpc_action_of(has_id: bool, method: Seq<char>) -> RpcAction {
    if !has_id {
        RpcAction::Silent
    } else if method == "initialize"@ {
        RpcAction::Initialize
    } else if method == "ping"@ {
        RpcAction::Ping
    } else if method == "tools/list"@ {
        RpcAction::ListTools
    } else if method == "tools/call"@ {
        RpcAction::CallTool
    } else {
        RpcAction::Unknown
    }
}

/// Decide how to answer a message with (or without) an id and a method.
pub fn rpc_action(has_id: bool, method: &str) -> (r: RpcAction)
    ensures
        r == rpc_action_of(has_id, method@),
{
    if !has_id {
        RpcAction::Silent
    } else if crate::text::str_eq(method, "initialize") {
        RpcAction::Initialize
    } else if crate::text::str_eq(method, "ping") {
        RpcAction::Ping
    } else if crate::text::str_eq(method, "tools/list") {
        RpcAction::ListTools
    } else if crate::text::str_eq(method, "tools/call") {
        RpcAction::CallTool
    } else {
        RpcAction::Unknown
    }
}

pub open spec fn unknown_method_message(method: Seq<char>) -> Seq<char> {
    "unknown method "@ + method
}

/// The error text for a method the server does not know.
pub fn unknown_method(method: &str) -> (r: String)
    ensures
        r@ == unknown_method_message(method@),
{
    concat("unknown method ", method)
}

/// The tools that query the graph: they answer only over a vault without
/// errors.
pub open spec fn is_query_tool(name: Seq<char>) -> bool {
    ||| name == "laplace_search"@
    ||| name == "laplace_get"@
    ||| name == "laplace_neighbors"@
    ||| name == "laplace_trace"@
    ||| name == "laplace_impact"@
    ||| name == "laplace_architecture"@
    ||| name == "laplace_schema"@
}

pub open spec fn query_refusal_message(errors: nat) -> Seq<char> {
    "refusing to query an invalid vault ("@ + crate::diag::decimal(errors) + " errors) — run laplace_validate"@
}

/// Does the tool query the graph?
pub fn queries_graph(name: &str) -> (r: bool)
    ensures
        r == is_query_tool(name@),
{
    crate::text::str_eq(name, "laplace_search") || crate::text::str_eq(name, "laplace_get")
        || crate::text::str_eq(name, "laplace_neighbors") || crate::text::str_eq(name, "laplace_trace")
        || crate::text::str_eq(name, "laplace_impact") || crate::text::str_eq(name, "laplace_architecture")
        || crate::text::str_eq(name, "laplace_schema")
}

/// Why a tool call is refused before it runs, if it is: a query over a
/// vault with errors.
pub fn query_refusal(name: &str, errors: usize) -> (r: Option<String>)
    ensures
        r is Some <==> is_query_tool(name@) && errors > 0,
        r matches Some(m) ==> m@ == query_refusal_message(errors as nat),
{
    if queries_graph(name) && errors > 0 {
        let mut m = owned("refusing to query an invalid vault (");
        m.append(crate::diag::decimal_string(errors).as_str());
        m.append(" errors) — run laplace_validate");
        Some(m)
    } else {
        None
    }
}

} // verus!
