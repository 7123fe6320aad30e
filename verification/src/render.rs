//! Query results as text, as the command line prints them: one line per
//! hit, node, edge, path or affected entity, with references padded to a
//! column where a column is wanted.

use vstd::prelude::*;
use crate::diag::{decimal, decimal_string, decimal_u64};
use crate::drift::concat_all;
use crate::query::{
    ArchitectureResult, EdgeEnd, GetResult, ImpactBucket, ImpactEntity, ImpactHop, ImpactResult, KindCount, KindEdge, NeighborEdge,
    NeighborNode, NeighborsResult, SearchHit, SearchResult, TraceHop, TracePath, TraceResult,
};
use crate::summary::{join_strings, join_with};
use crate::model::{first_sentence_of, propagation_name, strs, KindDecl, RelationDecl, Schema};

verus! {

/// `n` spaces.
pub open spec fn spaces(n: nat) -> Seq<char> {
    Seq::new(n, |i: int| ' ')
}

/// `s` padded with spaces on the right to `w` characters, as `{:<w}` pads.
pub open spec fn padded(s: Seq<char>, w: nat) -> Seq<char> {
    if s.len() < w {
        s + spaces((w - s.len()) as nat)
    } else {
        s
    }
}

/// Append `s` padded to `w` characters.
fn push_padded(out: &mut String, s: &str, w: usize)
    ensures
        final(out)@ == old(out)@ + padded(s@, w as nat),
{
    let ghost start = out@;
    out.append(s);
    let len = s.unicode_len();
    let mut k: usize = len;
    while k < w
        invariant
            len == s@.len(),
            len <= k <= (if len < w { w } else { len }),
            out@ == start + s@ + spaces((k - len) as nat),
        decreases w - k,
    {
        out.push(' ');
        proof {
            assert(spaces((k + 1 - len) as nat) =~= spaces((k - len) as nat).push(' '));
        }
        k = k + 1;
    }
    proof {
        if len < w {
            assert(k == w);
        } else {
            assert(spaces(0) =~= Seq::<char>::empty());
            assert(out@ =~= start + s@);
        }
    }
}

/// Append the line that comes `j`-th, keeping `out` the concatenation of
/// the lines so far.
proof fn lemma_concat_step(lines: Seq<Seq<char>>, j: int)
    requires
        0 <= j < lines.len(),
    ensures
        concat_all(lines.take(j + 1)) == concat_all(lines.take(j)) + lines[j],
{
    assert(lines.take(j + 1).drop_last() =~= lines.take(j));
}

// ───────────────────────────── search ─────────────────────────────

pub open spec fn hit_line(h: SearchHit) -> Seq<char> {
    padded(h.reference@, 40) + " "@ + decimal(h.score as nat) + " "@ + padded(h.matched@, 15) + " "@ + h.summary@
        + "\n"@
}

pub open spec fn search_text_of(r: SearchResult) -> Seq<char> {
    if r.results@.len() == 0 {
        "no matches\n"@
    } else {
        concat_all(r.results@.map_values(|h: SearchHit| hit_line(h)))
    }
}

/// The hits, one per line: the ref, its score, what matched, its summary.
pub fn search_text(r: &SearchResult) -> (t: String)
    ensures
        t@ == search_text_of(*r),
{
    if r.results.len() == 0 {
        return crate::text::owned("no matches\n");
    }
    let ghost lines = r.results@.map_values(|h: SearchHit| hit_line(h));
    let mut out = String::new();
    let mut j: usize = 0;
    while j < r.results.len()
        invariant
            j <= r.results@.len(),
            lines == r.results@.map_values(|h: SearchHit| hit_line(h)),
            out@ == concat_all(lines.take(j as int)),
        decreases r.results.len() - j,
    {
        let h = &r.results[j];
        push_padded(&mut out, h.reference.as_str(), 40);
        out.append(" ");
        out.append(decimal_u64(h.score).as_str());
        out.append(" ");
        push_padded(&mut out, h.matched, 15);
        out.append(" ");
        out.append(h.summary.as_str());
        out.append("\n");
        proof {
            lemma_concat_step(lines, j as int);
            assert(lines[j as int] == hit_line(*h));
            assert(out@ =~= concat_all(lines.take(j as int)) + hit_line(*h));
        }
        j = j + 1;
    }
    proof {
        assert(lines.take(j as int) =~= lines);
    }
    out
}

// ───────────────────────────── trace ─────────────────────────────

pub open spec fn hop_piece(h: TraceHop) -> Seq<char> {
    " "@ + h.direction@ + "["@ + h.rel@ + "] "@ + h.to@
}

pub open spec fn path_line(from: Seq<char>, p: TracePath) -> Seq<char> {
    "("@ + decimal(p.length as nat) + " hops) "@ + from + concat_all(p.hops@.map_values(|h: TraceHop| hop_piece(h)))
        + "\n"@
}

pub open spec fn trace_text_of(r: TraceResult) -> Seq<char> {
    if r.paths@.len() == 0 {
        "no path between "@ + r.from@ + " and "@ + r.to@ + "\n"@
    } else {
        concat_all(r.paths@.map_values(|p: TracePath| path_line(r.from@, p)))
    }
}

fn path_text(from: &str, p: &TracePath) -> (t: String)
    ensures
        t@ == path_line(from@, *p),
{
    let mut out = crate::text::owned("(");
    out.append(decimal_string(p.length).as_str());
    out.append(" hops) ");
    out.append(from);
    let ghost head = out@;
    let ghost pieces = p.hops@.map_values(|h: TraceHop| hop_piece(h));
    let mut j: usize = 0;
    while j < p.hops.len()
        invariant
            j <= p.hops@.len(),
            pieces == p.hops@.map_values(|h: TraceHop| hop_piece(h)),
            out@ == head + concat_all(pieces.take(j as int)),
        decreases p.hops.len() - j,
    {
        let h = &p.hops[j];
        out.append(" ");
        out.append(h.direction);
        out.append("[");
        out.append(h.rel.as_str());
        out.append("] ");
        out.append(h.to.as_str());
        proof {
            lemma_concat_step(pieces, j as int);
            assert(pieces[j as int] == hop_piece(*h));
            assert(out@ =~= head + concat_all(pieces.take(j as int)) + hop_piece(*h));
        }
        j = j + 1;
    }
    out.append("\n");
    proof {
        assert(pieces.take(j as int) =~= pieces);
        assert(out@ =~= path_line(from@, *p));
    }
    out
}

/// The paths, one per line: its length, then each hop from `from` on.
pub fn trace_text(r: &TraceResult) -> (t: String)
    ensures
        t@ == trace_text_of(*r),
{
    if r.paths.len() == 0 {
        let mut out = crate::text::owned("no path between ");
        out.append(r.from.as_str());
        out.append(" and ");
        out.append(r.to.as_str());
        out.append("\n");
        return out;
    }
    let ghost lines = r.paths@.map_values(|p: TracePath| path_line(r.from@, p));
    let mut out = String::new();
    let mut j: usize = 0;
    while j < r.paths.len()
        invariant
            j <= r.paths@.len(),
            lines == r.paths@.map_values(|p: TracePath| path_line(r.from@, p)),
            out@ == concat_all(lines.take(j as int)),
        decreases r.paths.len() - j,
    {
        let line = path_text(r.from.as_str(), &r.paths[j]);
        out.append(line.as_str());
        proof {
            lemma_concat_step(lines, j as int);
        }
        j = j + 1;
    }
    proof {
        assert(lines.take(j as int) =~= lines);
    }
    out
}

// ───────────────────────────── neighbors ─────────────────────────────

pub open spec fn node_line(n: NeighborNode) -> Seq<char> {
    "  ["@ + decimal(n.distance as nat) + "] "@ + padded(n.reference@, 40) + " "@ + n.summary@ + "\n"@
}

/// A note in brackets, or nothing.
pub open spec fn bracketed(note: Option<String>) -> Seq<char> {
    match note {
        Some(n) => "("@ + n@ + ")"@,
        None => seq![],
    }
}

pub open spec fn neighbor_edge_line(e: NeighborEdge) -> Seq<char> {
    "  "@ + e.from@ + " --"@ + e.rel@ + (if e.symmetric {
        "<->"@
    } else {
        "->"@
    }) + " "@ + e.to@ + " "@ + bracketed(e.note) + "\n"@
}

pub open spec fn neighbors_text_of(r: NeighborsResult) -> Seq<char> {
    "neighborhood of "@ + r.center@ + " (depth "@ + decimal(r.depth as nat) + ")\n"@ + concat_all(
        r.nodes@.map_values(|n: NeighborNode| node_line(n)),
    ) + "edges:\n"@ + concat_all(r.edges@.map_values(|e: NeighborEdge| neighbor_edge_line(e)))
}

fn node_text(n: &NeighborNode) -> (t: String)
    ensures
        t@ == node_line(*n),
{
    let mut out = crate::text::owned("  [");
    out.append(decimal_string(n.distance).as_str());
    out.append("] ");
    push_padded(&mut out, n.reference.as_str(), 40);
    out.append(" ");
    out.append(n.summary.as_str());
    out.append("\n");
    out
}

fn neighbor_edge_text(e: &NeighborEdge) -> (t: String)
    ensures
        t@ == neighbor_edge_line(*e),
{
    let mut out = crate::text::owned("  ");
    out.append(e.from.as_str());
    out.append(" --");
    out.append(e.rel.as_str());
    if e.symmetric {
        out.append("<->");
    } else {
        out.append("->");
    }
    out.append(" ");
    out.append(e.to.as_str());
    out.append(" ");
    match &e.note {
        Some(n) => {
            out.append("(");
            out.append(n.as_str());
            out.append(")");
        },
        None => {},
    }
    out.append("\n");
    out
}

/// The neighborhood: its center and depth, each entity with its distance,
/// then each edge.
pub fn neighbors_text(r: &NeighborsResult) -> (t: String)
    ensures
        t@ == neighbors_text_of(*r),
{
    let mut out = crate::text::owned("neighborhood of ");
    out.append(r.center.as_str());
    out.append(" (depth ");
    out.append(decimal_string(r.depth).as_str());
    out.append(")\n");
    let ghost head = out@;
    let ghost nl = r.nodes@.map_values(|n: NeighborNode| node_line(n));
    let mut j: usize = 0;
    while j < r.nodes.len()
        invariant
            j <= r.nodes@.len(),
            nl == r.nodes@.map_values(|n: NeighborNode| node_line(n)),
            out@ == head + concat_all(nl.take(j as int)),
        decreases r.nodes.len() - j,
    {
        let line = node_text(&r.nodes[j]);
        out.append(line.as_str());
        proof {
            lemma_concat_step(nl, j as int);
            assert(out@ =~= head + (concat_all(nl.take(j as int)) + nl[j as int]));
        }
        j = j + 1;
    }
    proof {
        assert(nl.take(j as int) =~= nl);
    }
    out.append("edges:\n");
    let ghost mid = out@;
    let ghost el = r.edges@.map_values(|e: NeighborEdge| neighbor_edge_line(e));
    let mut k: usize = 0;
    while k < r.edges.len()
        invariant
            k <= r.edges@.len(),
            el == r.edges@.map_values(|e: NeighborEdge| neighbor_edge_line(e)),
            out@ == mid + concat_all(el.take(k as int)),
        decreases r.edges.len() - k,
    {
        let line = neighbor_edge_text(&r.edges[k]);
        out.append(line.as_str());
        proof {
            lemma_concat_step(el, k as int);
            assert(out@ =~= mid + (concat_all(el.take(k as int)) + el[k as int]));
        }
        k = k + 1;
    }
    proof {
        assert(el.take(k as int) =~= el);
        assert(out@ =~= neighbors_text_of(*r));
    }
    out
}

// ───────────────────────────── impact ─────────────────────────────

pub open spec fn affected_line(e: ImpactEntity) -> Seq<char> {
    "  "@ + padded(e.reference@, 40) + " via "@ + join_with(e.path@.map_values(|h: ImpactHop| h.via@), " → "@) + "\n"@
}

pub open spec fn bucket_text(b: ImpactBucket) -> Seq<char> {
    "distance "@ + decimal(b.distance as nat) + ":\n"@ + concat_all(b.entities@.map_values(|e: ImpactEntity| affected_line(e)))
}

pub open spec fn impact_text_of(r: ImpactResult) -> Seq<char> {
    "impact of changing "@ + r.changed@ + " — "@ + decimal(r.affected as nat) + " affected within depth "@ + decimal(
        r.depth as nat,
    ) + " (candidate set, not an oracle)\n"@ + concat_all(r.buckets@.map_values(|b: ImpactBucket| bucket_text(b)))
}

fn affected_text(e: &ImpactEntity) -> (t: String)
    ensures
        t@ == affected_line(*e),
{
    let mut vias: Vec<String> = Vec::new();
    let mut j: usize = 0;
    while j < e.path.len()
        invariant
            j <= e.path@.len(),
            vias@.len() == j,
            strs(vias@) == e.path@.take(j as int).map_values(|h: ImpactHop| h.via@),
        decreases e.path.len() - j,
    {
        let ghost vb = vias@;
        let via = crate::text::owned(e.path[j].via.as_str());
        vias.push(via);
        proof {
            let want = e.path@.take(j + 1).map_values(|h: ImpactHop| h.via@);
            assert forall|q: int| 0 <= q < j + 1 implies strs(vias@)[q] == want[q] by {
                if q < j {
                    assert(vias@[q] == vb[q]);
                    assert(strs(vb)[q] == e.path@.take(j as int).map_values(|h: ImpactHop| h.via@)[q]);
                }
            }
            assert(strs(vias@) =~= want);
        }
        j = j + 1;
    }
    proof {
        assert(e.path@.take(j as int) =~= e.path@);
    }
    let mut out = crate::text::owned("  ");
    push_padded(&mut out, e.reference.as_str(), 40);
    out.append(" via ");
    out.append(join_strings(&vias, " → ").as_str());
    out.append("\n");
    out
}

fn bucket_lines(b: &ImpactBucket) -> (t: String)
    ensures
        t@ == bucket_text(*b),
{
    let mut out = crate::text::owned("distance ");
    out.append(decimal_string(b.distance).as_str());
    out.append(":\n");
    let ghost head = out@;
    let ghost el = b.entities@.map_values(|e: ImpactEntity| affected_line(e));
    let mut j: usize = 0;
    while j < b.entities.len()
        invariant
            j <= b.entities@.len(),
            el == b.entities@.map_values(|e: ImpactEntity| affected_line(e)),
            out@ == head + concat_all(el.take(j as int)),
        decreases b.entities.len() - j,
    {
        let line = affected_text(&b.entities[j]);
        out.append(line.as_str());
        proof {
            lemma_concat_step(el, j as int);
            assert(out@ =~= head + (concat_all(el.take(j as int)) + el[j as int]));
        }
        j = j + 1;
    }
    proof {
        assert(el.take(j as int) =~= el);
    }
    out
}

/// What a change reaches: a headline, then per distance the entities with
/// the relation types of the path that reaches each.
pub fn impact_text(r: &ImpactResult) -> (t: String)
    ensures
        t@ == impact_text_of(*r),
{
    let mut out = crate::text::owned("impact of changing ");
    out.append(r.changed.as_str());
    out.append(" — ");
    out.append(decimal_string(r.affected).as_str());
    out.append(" affected within depth ");
    out.append(decimal_string(r.depth).as_str());
    out.append(" (candidate set, not an oracle)\n");
    let ghost head = out@;
    let ghost bl = r.buckets@.map_values(|b: ImpactBucket| bucket_text(b));
    let mut j: usize = 0;
    while j < r.buckets.len()
        invariant
            j <= r.buckets@.len(),
            bl == r.buckets@.map_values(|b: ImpactBucket| bucket_text(b)),
            out@ == head + concat_all(bl.take(j as int)),
        decreases r.buckets.len() - j,
    {
        let part = bucket_lines(&r.buckets[j]);
        out.append(part.as_str());
        proof {
            lemma_concat_step(bl, j as int);
            assert(out@ =~= head + (concat_all(bl.take(j as int)) + bl[j as int]));
        }
        j = j + 1;
    }
    proof {
        assert(bl.take(j as int) =~= bl);
        assert(out@ =~= impact_text_of(*r));
    }
    out
}

// ───────────────────────────── architecture ─────────────────────────────

pub open spec fn kind_line(k: KindCount) -> Seq<char> {
    "  "@ + padded(k.kind@, 12) + " "@ + decimal(k.count as nat) + "\n"@
}

pub open spec fn kind_edge_line(e: KindEdge) -> Seq<char> {
    "  "@ + e.from_kind@ + " --"@ + e.rel@ + "-> "@ + e.to_kind@ + "  ×"@ + decimal(e.count as nat) + "\n"@
}

pub open spec fn architecture_text_of(r: ArchitectureResult) -> Seq<char> {
    r.project@ + " — "@ + decimal(r.entities as nat) + " entities, "@ + decimal(r.relations as nat) + " relations\nkinds:\n"@
        + concat_all(r.kinds@.map_values(|k: KindCount| kind_line(k))) + "edges (kind-level):\n"@ + concat_all(
        r.edges@.map_values(|e: KindEdge| kind_edge_line(e)),
    )
}

/// The project at the level of kinds: how many of each, and how many
/// edges of each relation type run between two kinds.
pub fn architecture_text(r: &ArchitectureResult) -> (t: String)
    ensures
        t@ == architecture_text_of(*r),
{
    let mut out = crate::text::owned(r.project.as_str());
    out.append(" — ");
    out.append(decimal_string(r.entities).as_str());
    out.append(" entities, ");
    out.append(decimal_string(r.relations).as_str());
    out.append(" relations\nkinds:\n");
    let ghost head = out@;
    let ghost kl = r.kinds@.map_values(|k: KindCount| kind_line(k));
    let mut j: usize = 0;
    while j < r.kinds.len()
        invariant
            j <= r.kinds@.len(),
            kl == r.kinds@.map_values(|k: KindCount| kind_line(k)),
            out@ == head + concat_all(kl.take(j as int)),
        decreases r.kinds.len() - j,
    {
        let k = &r.kinds[j];
        let ghost before = out@;
        out.append("  ");
        push_padded(&mut out, k.kind.as_str(), 12);
        out.append(" ");
        out.append(decimal_string(k.count).as_str());
        out.append("\n");
        proof {
            lemma_concat_step(kl, j as int);
            assert(kl[j as int] == kind_line(*k));
            assert(out@ =~= before + kind_line(*k));
        }
        j = j + 1;
    }
    proof {
        assert(kl.take(j as int) =~= kl);
    }
    out.append("edges (kind-level):\n");
    let ghost mid = out@;
    let ghost el = r.edges@.map_values(|e: KindEdge| kind_edge_line(e));
    let mut k: usize = 0;
    while k < r.edges.len()
        invariant
            k <= r.edges@.len(),
            el == r.edges@.map_values(|e: KindEdge| kind_edge_line(e)),
            out@ == mid + concat_all(el.take(k as int)),
        decreases r.edges.len() - k,
    {
        let e = &r.edges[k];
        let ghost before = out@;
        out.append("  ");
        out.append(e.from_kind.as_str());
        out.append(" --");
        out.append(e.rel.as_str());
        out.append("-> ");
        out.append(e.to_kind.as_str());
        out.append("  ×");
        out.append(decimal_string(e.count).as_str());
        out.append("\n");
        proof {
            lemma_concat_step(el, k as int);
            assert(el[k as int] == kind_edge_line(*e));
            assert(out@ =~= before + kind_edge_line(*e));
        }
        k = k + 1;
    }
    proof {
        assert(el.take(k as int) =~= el);
        assert(out@ =~= architecture_text_of(*r));
    }
    out
}

// ───────────────────────────── get ─────────────────────────────

/// A note after two spaces and in brackets, or nothing.
pub open spec fn spaced_note(note: Option<String>) -> Seq<char> {
    match note {
        Some(n) => "  ("@ + n@ + ")"@,
        None => seq![],
    }
}

pub open spec fn end_line(arrow: Seq<char>, rel: Seq<char>, e: EdgeEnd) -> Seq<char> {
    "  "@ + arrow + " "@ + rel + " "@ + e.reference@ + spaced_note(e.note) + "\n"@
}

pub open spec fn group_lines(arrow: Seq<char>, g: (String, Vec<EdgeEnd>)) -> Seq<char> {
    concat_all(g.1@.map_values(|e: EdgeEnd| end_line(arrow, g.0@, e)))
}

/// The edges one way, grouped by relation type, under `label`; nothing
/// when there are none.
pub open spec fn groups_text(label: Seq<char>, arrow: Seq<char>, gs: Seq<(String, Vec<EdgeEnd>)>) -> Seq<char> {
    if gs.len() == 0 {
        seq![]
    } else {
        label + ":\n"@ + concat_all(gs.map_values(|g: (String, Vec<EdgeEnd>)| group_lines(arrow, g)))
    }
}

pub open spec fn get_text_of(r: GetResult) -> Seq<char> {
    r.reference@ + "  ("@ + r.path@ + ")\n"@ + "title: "@ + r.title@ + "\n"@ + (if r.tags@.len() > 0 {
        "tags: "@ + join_with(strs(r.tags@), ", "@) + "\n"@
    } else {
        seq![]
    }) + (match r.lifecycle {
        Some(l) => "lifecycle: "@ + l@ + "\n"@,
        None => seq![],
    }) + groups_text("outbound"@, "→"@, r.outbound@) + groups_text("inbound"@, "←"@, r.inbound@) + "\n"@ + r.body@
        + "\n"@
}

fn append_group(out: &mut String, arrow: &str, g: &(String, Vec<EdgeEnd>))
    ensures
        final(out)@ == old(out)@ + group_lines(arrow@, *g),
{
    let ghost start = out@;
    let ghost el = g.1@.map_values(|e: EdgeEnd| end_line(arrow@, g.0@, e));
    let mut j: usize = 0;
    while j < g.1.len()
        invariant
            j <= g.1@.len(),
            el == g.1@.map_values(|e: EdgeEnd| end_line(arrow@, g.0@, e)),
            out@ == start + concat_all(el.take(j as int)),
        decreases g.1.len() - j,
    {
        let e = &g.1[j];
        let ghost before = out@;
        out.append("  ");
        out.append(arrow);
        out.append(" ");
        out.append(g.0.as_str());
        out.append(" ");
        out.append(e.reference.as_str());
        match &e.note {
            Some(n) => {
                out.append("  (");
                out.append(n.as_str());
                out.append(")");
            },
            None => {},
        }
        out.append("\n");
        proof {
            lemma_concat_step(el, j as int);
            assert(el[j as int] == end_line(arrow@, g.0@, *e));
            assert(out@ =~= before + end_line(arrow@, g.0@, *e));
        }
        j = j + 1;
    }
    proof {
        assert(el.take(j as int) =~= el);
    }
}

fn append_groups(out: &mut String, label: &str, arrow: &str, gs: &Vec<(String, Vec<EdgeEnd>)>)
    ensures
        final(out)@ == old(out)@ + groups_text(label@, arrow@, gs@),
{
    if gs.len() == 0 {
        assert(out@ =~= out@ + Seq::<char>::empty());
        return;
    }
    let ghost start = out@;
    out.append(label);
    out.append(":\n");
    let ghost head = out@;
    let ghost gl = gs@.map_values(|g: (String, Vec<EdgeEnd>)| group_lines(arrow@, g));
    let mut j: usize = 0;
    while j < gs.len()
        invariant
            j <= gs@.len(),
            gl == gs@.map_values(|g: (String, Vec<EdgeEnd>)| group_lines(arrow@, g)),
            out@ == head + concat_all(gl.take(j as int)),
        decreases gs.len() - j,
    {
        append_group(out, arrow, &gs[j]);
        proof {
            lemma_concat_step(gl, j as int);
            assert(out@ =~= head + (concat_all(gl.take(j as int)) + gl[j as int]));
        }
        j = j + 1;
    }
    proof {
        assert(gl.take(j as int) =~= gl);
        assert(out@ =~= start + groups_text(label@, arrow@, gs@));
    }
}

/// An entity in full: its ref and file, title, tags and lifecycle, its
/// edges out and in, then its body.
pub fn get_text(r: &GetResult) -> (t: String)
    ensures
        t@ == get_text_of(*r),
{
    let mut out = crate::text::owned(r.reference.as_str());
    out.append("  (");
    out.append(r.path.as_str());
    out.append(")\n");
    out.append("title: ");
    out.append(r.title.as_str());
    out.append("\n");
    let ghost a = out@;
    if r.tags.len() > 0 {
        out.append("tags: ");
        out.append(join_strings(&r.tags, ", ").as_str());
        out.append("\n");
    }
    let ghost b = out@;
    match &r.lifecycle {
        Some(l) => {
            out.append("lifecycle: ");
            out.append(l.as_str());
            out.append("\n");
        },
        None => {},
    }
    let ghost c = out@;
    append_groups(&mut out, "outbound", "→", &r.outbound);
    append_groups(&mut out, "inbound", "←", &r.inbound);
    out.append("\n");
    out.append(r.body.as_str());
    out.append("\n");
    proof {
        assert(out@ =~= get_text_of(*r));
    }
    out
}

// ───────────────────────────── schema ─────────────────────────────

pub open spec fn list_section(head: Seq<char>, items: Seq<Seq<char>>) -> Seq<char> {
    if items.len() == 0 {
        seq![]
    } else {
        head + concat_all(items.map_values(|c: Seq<char>| "  - "@ + c + "\n"@))
    }
}

pub open spec fn kind_label(d: KindDecl) -> Seq<char> {
    match d.description {
        Some(x) => first_sentence_of(x@),
        None => seq![],
    }
}

pub open spec fn kind_decl_line(k: (String, KindDecl)) -> Seq<char> {
    "  "@ + padded(k.0@, 12) + " "@ + kind_label(k.1) + "\n"@
}

/// The propagation, then `symmetric` and `acyclic` where they hold.
pub open spec fn relation_flags(d: RelationDecl) -> Seq<Seq<char>> {
    seq![propagation_name(d.propagation)] + (if d.symmetric {
        seq!["symmetric"@]
    } else {
        seq![]
    }) + (if d.acyclic {
        seq!["acyclic"@]
    } else {
        seq![]
    })
}

pub open spec fn relation_decl_line(r: (String, RelationDecl)) -> Seq<char> {
    "  "@ + padded(r.0@, 10) + " ["@ + join_with(relation_flags(r.1), ", "@) + "]  "@ + (match r.1.description {
        Some(x) => x@,
        None => seq![],
    }) + "\n"@
}

pub open spec fn schema_text_of(s: Schema) -> Seq<char> {
    (match s.title {
        Some(t) => t@ + " ("@ + s.name@ + ")\n"@,
        None => s.name@ + "\n"@,
    }) + list_section("charter:\n"@, strs(s.charter@)) + list_section("exclusions:\n"@, strs(s.exclusions@))
        + "kinds:\n"@ + concat_all(s.kinds@.map_values(|k: (String, KindDecl)| kind_decl_line(k))) + "relations:\n"@
        + concat_all(s.relations@.map_values(|r: (String, RelationDecl)| relation_decl_line(r)))
}

fn append_list_section(out: &mut String, head: &str, items: &Vec<String>)
    ensures
        final(out)@ == old(out)@ + list_section(head@, strs(items@)),
{
    if items.len() == 0 {
        assert(out@ =~= out@ + Seq::<char>::empty());
        return;
    }
    let ghost start = out@;
    out.append(head);
    let ghost h = out@;
    let ghost il = strs(items@).map_values(|c: Seq<char>| "  - "@ + c + "\n"@);
    let mut j: usize = 0;
    while j < items.len()
        invariant
            j <= items@.len(),
            il == strs(items@).map_values(|c: Seq<char>| "  - "@ + c + "\n"@),
            out@ == h + concat_all(il.take(j as int)),
        decreases items.len() - j,
    {
        let ghost before = out@;
        out.append("  - ");
        out.append(items[j].as_str());
        out.append("\n");
        proof {
            lemma_concat_step(il, j as int);
            assert(il[j as int] == "  - "@ + items@[j as int]@ + "\n"@);
            assert(out@ =~= before + il[j as int]);
        }
        j = j + 1;
    }
    proof {
        assert(il.take(j as int) =~= il);
        assert(out@ =~= start + list_section(head@, strs(items@)));
    }
}

fn relation_text(r: &(String, RelationDecl)) -> (t: String)
    ensures
        t@ == relation_decl_line(*r),
{
    let d = &r.1;
    let mut flags: Vec<String> = Vec::new();
    flags.push(crate::text::owned(d.propagation.as_str()));
    if d.symmetric {
        flags.push(crate::text::owned("symmetric"));
    }
    if d.acyclic {
        flags.push(crate::text::owned("acyclic"));
    }
    proof {
        assert(strs(flags@) =~= relation_flags(*d));
    }
    let mut out = crate::text::owned("  ");
    push_padded(&mut out, r.0.as_str(), 10);
    out.append(" [");
    out.append(join_strings(&flags, ", ").as_str());
    out.append("]  ");
    match &d.description {
        Some(x) => {
            out.append(x.as_str());
        },
        None => {},
    }
    out.append("\n");
    out
}

/// The constitution: its name and title, charter and exclusions, each kind
/// with its label, each relation type with how changes travel along it.
pub fn schema_text(s: &Schema) -> (t: String)
    ensures
        t@ == schema_text_of(*s),
{
    let mut out = match &s.title {
        Some(t) => {
            let mut o = crate::text::owned(t.as_str());
            o.append(" (");
            o.append(s.name.as_str());
            o.append(")\n");
            o
        },
        None => crate::text::concat(s.name.as_str(), "\n"),
    };
    append_list_section(&mut out, "charter:\n", &s.charter);
    append_list_section(&mut out, "exclusions:\n", &s.exclusions);
    out.append("kinds:\n");
    let ghost head = out@;
    let ghost kl = s.kinds@.map_values(|k: (String, KindDecl)| kind_decl_line(k));
    let mut j: usize = 0;
    while j < s.kinds.len()
        invariant
            j <= s.kinds@.len(),
            kl == s.kinds@.map_values(|k: (String, KindDecl)| kind_decl_line(k)),
            out@ == head + concat_all(kl.take(j as int)),
        decreases s.kinds.len() - j,
    {
        let k = &s.kinds[j];
        let ghost before = out@;
        out.append("  ");
        push_padded(&mut out, k.0.as_str(), 12);
        out.append(" ");
        match k.1.label() {
            Some(l) => {
                out.append(l.as_str());
            },
            None => {},
        }
        out.append("\n");
        proof {
            lemma_concat_step(kl, j as int);
            assert(kl[j as int] == kind_decl_line(*k));
            assert(out@ =~= before + kind_decl_line(*k));
        }
        j = j + 1;
    }
    proof {
        assert(kl.take(j as int) =~= kl);
    }
    out.append("relations:\n");
    let ghost mid = out@;
    let ghost rl = s.relations@.map_values(|r: (String, RelationDecl)| relation_decl_line(r));
    let mut k: usize = 0;
    while k < s.relations.len()
        invariant
            k <= s.relations@.len(),
            rl == s.relations@.map_values(|r: (String, RelationDecl)| relation_decl_line(r)),
            out@ == mid + concat_all(rl.take(k as int)),
        decreases s.relations.len() - k,
    {
        let line = relation_text(&s.relations[k]);
        out.append(line.as_str());
        proof {
            lemma_concat_step(rl, k as int);
            assert(out@ =~= mid + (concat_all(rl.take(k as int)) + rl[k as int]));
        }
        k = k + 1;
    }
    proof {
        assert(rl.take(k as int) =~= rl);
        assert(out@ =~= schema_text_of(*s));
    }
    out
}

} // verus!
