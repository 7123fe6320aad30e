//! The property graph: a derived cache of the vault. Built over any vault;
//! unresolvable targets are skipped here, because queries refuse to run when
//! validation reports errors.

use vstd::prelude::*;
use crate::model::{
    key_index, keys_of, parse_ref, Entity, EntityRef, EntityV, Propagation, RelEntryV,
    RelationDeclV, Schema,
};
use crate::vault::{entities_view, Vault};

verus! {

pub struct Edge {
    pub source: usize,
    pub rel: String,
    pub target: usize,
    pub note: Option<String>,
}

pub struct EdgeV {
    pub source: int,
    pub rel: Seq<char>,
    pub target: int,
    pub note: Option<Seq<char>>,
}

impl View for Edge {
    type V = EdgeV;

    open spec fn view(&self) -> EdgeV {
        EdgeV {
            source: self.source as int,
            rel: self.rel@,
            target: self.target as int,
            note: match self.note {
                Some(n) => Some(n@),
                None => None,
            },
        }
    }
}

pub open spec fn edges_view(v: Seq<Edge>) -> Seq<EdgeV> {
    v.map_values(|e: Edge| e@)
}

/// A traversal step over one edge, seen from a given node.
#[derive(Clone, Copy)]
pub struct Step {
    pub edge: usize,
    pub other: usize,
    /// true when traversed source→target (the declared direction).
    pub forward: bool,
}

// ───────────────────────────── the specification of build ─────────────────────────────

/// The last entity with identity `r` (later duplicates shadow earlier ones).
pub open spec fn last_index(es: Seq<EntityV>, r: (Seq<char>, Seq<char>, Seq<char>)) -> Option<int>
    decreases es.len(),
{
    if es.len() == 0 {
        None
    } else if es.last().eref == r {
        Some(es.len() - 1)
    } else {
        last_index(es.drop_last(), r)
    }
}

pub proof fn lemma_last_index(es: Seq<EntityV>, r: (Seq<char>, Seq<char>, Seq<char>))
    ensures
        match last_index(es, r) {
            Some(i) => 0 <= i < es.len() && es[i].eref == r && forall|j: int|
                i < j < es.len() ==> (#[trigger] es[j]).eref != r,
            None => forall|j: int| 0 <= j < es.len() ==> (#[trigger] es[j]).eref != r,
        },
    decreases es.len(),
{
    if es.len() > 0 {
        lemma_last_index(es.drop_last(), r);
        assert forall|j: int| 0 <= j < es.len() - 1 implies (#[trigger] es[j]) == es.drop_last()[j] by {}
    }
}

/// The dedup key of an edge: symmetric relations forget the direction.
pub open spec fn edge_key(s: int, rel: Seq<char>, t: int, symmetric: bool) -> (int, Seq<char>, int) {
    if symmetric {
        (if s <= t { s } else { t }, rel, if s <= t { t } else { s })
    } else {
        (s, rel, t)
    }
}

pub open spec fn is_symmetric_in(schema: crate::model::SchemaV, rel: Seq<char>) -> bool {
    match key_index(schema.relations.map_values(|p: (Seq<char>, RelationDeclV)| p.0), rel) {
        Some(i) => schema.relations[i].1.symmetric,
        None => false,
    }
}

pub open spec fn key_of_edge(schema: crate::model::SchemaV, e: EdgeV) -> (int, Seq<char>, int) {
    edge_key(e.source, e.rel, e.target, is_symmetric_in(schema, e.rel))
}

/// Has an edge with this key been taken already?
pub open spec fn key_taken(schema: crate::model::SchemaV, edges: Seq<EdgeV>, key: (
    int,
    Seq<char>,
    int,
)) -> bool {
    exists|j: int| 0 <= j < edges.len() && key_of_edge(schema, #[trigger] edges[j]) == key
}

/// One relation entry of entity `si`: an edge when its target resolves and
/// its key is new.
pub open spec fn entry_step(
    schema: crate::model::SchemaV,
    es: Seq<EntityV>,
    edges: Seq<EdgeV>,
    si: int,
    rel: Seq<char>,
    entry: RelEntryV,
) -> Seq<EdgeV> {
    match parse_ref(entry.target_text()) {
        Err(_) => edges,
        Ok(t) => match last_index(es, t) {
            None => edges,
            Some(ti) => if key_taken(schema, edges, edge_key(si, rel, ti, is_symmetric_in(schema, rel))) {
                edges
            } else {
                edges.push(EdgeV { source: si, rel, target: ti, note: entry.note_text() })
            },
        },
    }
}

pub open spec fn entries_fold(
    schema: crate::model::SchemaV,
    es: Seq<EntityV>,
    edges: Seq<EdgeV>,
    si: int,
    rel: Seq<char>,
    entries: Seq<RelEntryV>,
    n: nat,
) -> Seq<EdgeV>
    decreases n,
{
    if n == 0 {
        edges
    } else {
        entry_step(
            schema,
            es,
            entries_fold(schema, es, edges, si, rel, entries, (n - 1) as nat),
            si,
            rel,
            entries[n - 1],
        )
    }
}

pub open spec fn declares_relation(schema: crate::model::SchemaV, rel: Seq<char>) -> bool {
    key_index(schema.relations.map_values(|p: (Seq<char>, RelationDeclV)| p.0), rel) is Some
}

pub open spec fn rels_fold(
    schema: crate::model::SchemaV,
    es: Seq<EntityV>,
    edges: Seq<EdgeV>,
    si: int,
    rels: Seq<(Seq<char>, Seq<RelEntryV>)>,
    n: nat,
) -> Seq<EdgeV>
    decreases n,
{
    if n == 0 {
        edges
    } else {
        let before = rels_fold(schema, es, edges, si, rels, (n - 1) as nat);
        let (rel, entries) = rels[n - 1];
        if declares_relation(schema, rel) {
            entries_fold(schema, es, before, si, rel, entries, entries.len())
        } else {
            before
        }
    }
}

/// The edges of the first `n` entities, in the order they are stated.
pub open spec fn build_edges(schema: crate::model::SchemaV, es: Seq<EntityV>, n: nat) -> Seq<EdgeV>
    decreases n,
{
    if n == 0 {
        seq![]
    } else {
        let before = build_edges(schema, es, (n - 1) as nat);
        let rels = es[n - 1].fm.relations;
        rels_fold(schema, es, before, n - 1, rels, rels.len())
    }
}

/// The graph's edges: every relation entry whose type is declared and whose
/// target resolves, in file order, once per key.
pub open spec fn graph_edges(v: Vault) -> Seq<EdgeV> {
    build_edges(v.schema@, entities_view(v.entities@), v.entities@.len() as nat)
}

/// Positions of the edges whose source (or target) is `i`, ascending.
pub open spec fn incident(edges: Seq<EdgeV>, i: int, outgoing: bool) -> Seq<usize>
    decreases edges.len(),
{
    if edges.len() == 0 {
        seq![]
    } else {
        let before = incident(edges.drop_last(), i, outgoing);
        let e = edges.last();
        if (outgoing && e.source == i) || (!outgoing && e.target == i) {
            before.push((edges.len() - 1) as usize)
        } else {
            before
        }
    }
}

// ───────────────────────────── the graph ─────────────────────────────

pub struct Graph<'a> {
    vault: &'a Vault,
    edges: Vec<Edge>,
    out: Vec<Vec<usize>>,
    inc: Vec<Vec<usize>>,
}

impl<'a> Graph<'a> {
    #[verifier::type_invariant]
    spec fn wf(self) -> bool {
        &&& edges_view(self.edges@) == graph_edges(*self.vault)
        &&& forall|j: int|
            0 <= j < self.edges@.len() ==> (#[trigger] self.edges@[j]).source
                < self.vault.entities@.len() && self.edges@[j].target < self.vault.entities@.len()
        &&& self.out@.len() == self.vault.entities@.len()
        &&& self.inc@.len() == self.vault.entities@.len()
        &&& forall|i: int|
            0 <= i < self.out@.len() ==> (#[trigger] self.out@[i])@ == incident(
                edges_view(self.edges@),
                i,
                true,
            )
        &&& forall|i: int|
            0 <= i < self.inc@.len() ==> (#[trigger] self.inc@[i])@ == incident(
                edges_view(self.edges@),
                i,
                false,
            )
    }

    pub closed spec fn vault_spec(self) -> Vault {
        *self.vault
    }

    pub closed spec fn edges_spec(self) -> Seq<EdgeV> {
        edges_view(self.edges@)
    }

    /// The edges, in build order.
    pub fn edges(&self) -> (r: &Vec<Edge>)
        ensures
            edges_view(r@) == self.edges_spec(),
            self.edges_spec() == graph_edges(self.vault_spec()),
            forall|j: int|
                0 <= j < r@.len() ==> (#[trigger] r@[j]).source < self.vault_spec().entities@.len()
                    && r@[j].target < self.vault_spec().entities@.len(),
            edges_in_range(self.edges_spec(), self.vault_spec().entities@.len() as int),
    {
        proof {
            use_type_invariant(self);
            assert forall|j: int| 0 <= j < self.edges@.len() implies 0 <= (
            #[trigger] edges_view(self.edges@)[j]).source < self.vault.entities@.len() && 0
                <= edges_view(self.edges@)[j].target < self.vault.entities@.len() by {
                assert(edges_view(self.edges@)[j] == self.edges@[j]@);
            }
        }
        &self.edges
    }

    /// Positions of the edges leaving entity `i`, ascending.
    pub fn out_of(&self, i: usize) -> (r: &Vec<usize>)
        requires
            i < self.vault_spec().entities@.len(),
        ensures
            r@ == incident(self.edges_spec(), i as int, true),
    {
        proof {
            use_type_invariant(self);
        }
        &self.out[i]
    }

    /// Positions of the edges entering entity `i`, ascending.
    pub fn inc_of(&self, i: usize) -> (r: &Vec<usize>)
        requires
            i < self.vault_spec().entities@.len(),
        ensures
            r@ == incident(self.edges_spec(), i as int, false),
    {
        proof {
            use_type_invariant(self);
        }
        &self.inc[i]
    }

    pub fn build(vault: &'a Vault) -> (g: Self)
        ensures
            g.vault_spec() == *vault,
            g.edges_spec() == graph_edges(*vault),
    {
        let ghost schema = vault.schema@;
        let ghost es = entities_view(vault.entities@);
        let n = vault.entities.len();
        let mut edges: Vec<Edge> = Vec::new();
        let mut out: Vec<Vec<usize>> = Vec::new();
        let mut inc: Vec<Vec<usize>> = Vec::new();
        let mut i: usize = 0;
        while i < n
            invariant
                n == vault.entities@.len(),
                i <= n,
                out@.len() == i,
                inc@.len() == i,
                edges@.len() == 0,
                forall|j: int| 0 <= j < i ==> (#[trigger] out@[j])@.len() == 0,
                forall|j: int| 0 <= j < i ==> (#[trigger] inc@[j])@.len() == 0,
            decreases n - i,
        {
            out.push(Vec::new());
            inc.push(Vec::new());
            i = i + 1;
        }
        proof {
            assert forall|j: int| 0 <= j < n implies (#[trigger] out@[j])@ == incident(
                edges_view(edges@),
                j,
                true,
            ) by {
                assert(out@[j]@ =~= Seq::<usize>::empty());
            }
            assert forall|j: int| 0 <= j < n implies (#[trigger] inc@[j])@ == incident(
                edges_view(edges@),
                j,
                false,
            ) by {
                assert(inc@[j]@ =~= Seq::<usize>::empty());
            }
            assert(edges_view(edges@) =~= build_edges(schema, es, 0));
        }
        let mut si: usize = 0;
        while si < n
            invariant
                schema == vault.schema@,
                es == entities_view(vault.entities@),
                n == vault.entities@.len(),
                si <= n,
                out@.len() == n,
                inc@.len() == n,
                edges_view(edges@) == build_edges(schema, es, si as nat),
                forall|j: int|
                    0 <= j < n ==> (#[trigger] out@[j])@ == incident(edges_view(edges@), j, true),
                forall|j: int|
                    0 <= j < n ==> (#[trigger] inc@[j])@ == incident(edges_view(edges@), j, false),
                forall|j: int| 0 <= j < edges@.len() ==> (#[trigger] edges@[j]).source < n && edges@[j].target < n,
            decreases n - si,
        {
            let e = &vault.entities[si];
            let ghost rels = es[si as int].fm.relations;
            let ghost base = edges_view(edges@);
            assert(rels == crate::model::relations_view(e.fm.relations@));
            let mut ri: usize = 0;
            while ri < e.fm.relations.len()
                invariant
                    schema == vault.schema@,
                    es == entities_view(vault.entities@),
                    n == vault.entities@.len(),
                    si < n,
                    e == &vault.entities@[si as int],
                    rels == es[si as int].fm.relations,
                    rels.len() == e.fm.relations@.len(),
                    ri <= rels.len(),
                    base == build_edges(schema, es, si as nat),
                    out@.len() == n,
                    inc@.len() == n,
                    edges_view(edges@) == rels_fold(schema, es, base, si as int, rels, ri as nat),
                    forall|j: int|
                        0 <= j < n ==> (#[trigger] out@[j])@ == incident(edges_view(edges@), j, true),
                    forall|j: int|
                        0 <= j < n ==> (#[trigger] inc@[j])@ == incident(edges_view(edges@), j, false),
                    forall|j: int| 0 <= j < edges@.len() ==> (#[trigger] edges@[j]).source < n && edges@[j].target < n,
                decreases rels.len() - ri,
            {
                let rel = &e.fm.relations[ri].0;
                let entries = &e.fm.relations[ri].1;
                let ghost mid = edges_view(edges@);
                proof {
                    assert(rels[ri as int].0 == rel@);
                    assert(rels[ri as int].1 == crate::model::entries_view(entries@));
                }
                let declared = relation_symmetric(&vault.schema, rel.as_str());
                match declared {
                    None => {},
                    Some(sym) => {
                        let mut k: usize = 0;
                        while k < entries.len()
                            invariant
                                schema == vault.schema@,
                                es == entities_view(vault.entities@),
                                n == vault.entities@.len(),
                                si < n,
                                entries@.len() == rels[ri as int].1.len(),
                                crate::model::entries_view(entries@) == rels[ri as int].1,
                                rel@ == rels[ri as int].0,
                                sym == is_symmetric_in(schema, rel@),
                                k <= entries.len(),
                                out@.len() == n,
                                inc@.len() == n,
                                edges_view(edges@) == entries_fold(schema, es, mid, si as int, rel@, rels[ri as int].1, k as nat),
                                forall|j: int|
                                    0 <= j < n ==> (#[trigger] out@[j])@ == incident(edges_view(edges@), j, true),
                                forall|j: int|
                                    0 <= j < n ==> (#[trigger] inc@[j])@ == incident(edges_view(edges@), j, false),
                                forall|j: int| 0 <= j < edges@.len() ==> (#[trigger] edges@[j]).source < n && edges@[j].target < n,
                            decreases entries.len() - k,
                        {
                            let entry = &entries[k];
                            assert(rels[ri as int].1[k as int] == entry@);
                            let ghost before = edges_view(edges@);
                            match EntityRef::parse(entry.target()) {
                                Err(_) => {},
                                Ok(target) => match last_entity_index(&vault.entities, &target) {
                                    None => {},
                                    Some(ti) => {
                                        let (a, b) = if sym {
                                            if si <= ti { (si, ti) } else { (ti, si) }
                                        } else {
                                            (si, ti)
                                        };
                                        if !key_in_edges(&vault.schema, &edges, a, rel.as_str(), b) {
                                            let ei = edges.len();
                                            let note = match entry.note() {
                                                Some(x) => Some(crate::text::owned(x)),
                                                None => None,
                                            };
                                            edges.push(Edge { source: si, rel: rel.clone(), target: ti, note });
                                            proof {
                                                assert(edges_view(edges@).drop_last() =~= before);
                                            }
                                            let mut l = out[si].clone();
                                            l.push(ei);
                                            out.set(si, l);
                                            let mut l2 = inc[ti].clone();
                                            l2.push(ei);
                                            inc.set(ti, l2);
                                            proof {
                                                assert(edges_view(edges@) =~= before.push(EdgeV { source: si as int, rel: rel@, target: ti as int, note: entry@.note_text() }));
                                            }
                                        }
                                    },
                                },
                            }
                            k = k + 1;
                        }
                    },
                }
                proof {
                    assert(crate::model::entries_view(entries@).len() == entries@.len());
                }
                ri = ri + 1;
            }
            si = si + 1;
        }
        Graph { vault, edges, out, inc }
    }

    /// Index of the entity with identity `r` (the last one, should two share it).
    pub fn index_of(&self, r: &EntityRef) -> (i: Option<usize>)
        ensures
            match i {
                Some(x) => last_index(entities_view(self.vault_spec().entities@), r@) == Some(x as int)
                    && x < self.vault_spec().entities@.len(),
                None => last_index(entities_view(self.vault_spec().entities@), r@) is None,
            },
    {
        last_entity_index(&self.vault.entities, r)
    }

    pub fn entity(&self, idx: usize) -> (r: &Entity)
        requires
            idx < self.vault_spec().entities@.len(),
        ensures
            *r == self.vault_spec().entities@[idx as int],
    {
        &self.vault.entities[idx]
    }

    /// Is relation type `rel` declared symmetric?
    pub fn is_symmetric(&self, rel: &str) -> (r: bool)
        ensures
            r == is_symmetric_in(self.vault_spec().schema@, rel@),
    {
        match relation_symmetric(&self.vault.schema, rel) {
            Some(s) => s,
            None => false,
        }
    }

    /// Undirected traversal steps from a node: outgoing edges forward, then
    /// incoming edges backward.
    pub fn undirected(&self, idx: usize) -> (r: Vec<Step>)
        requires
            idx < self.vault_spec().entities@.len(),
        ensures
            r@ == undirected_steps(self.edges_spec(), idx as int),
    {
        proof {
            use_type_invariant(self);
            lemma_incident_range(edges_view(self.edges@), idx as int, true);
            lemma_incident_range(edges_view(self.edges@), idx as int, false);
        }
        let ghost ev = edges_view(self.edges@);
        let o = &self.out[idx];
        let ic = &self.inc[idx];
        let mut steps: Vec<Step> = Vec::new();
        let mut k: usize = 0;
        while k < o.len()
            invariant
                k <= o.len(),
                ev == edges_view(self.edges@),
                o@ == incident(ev, idx as int, true),
                forall|j: int| 0 <= j < self.edges@.len() ==> (#[trigger] self.edges@[j]).source < self.vault.entities@.len() && self.edges@[j].target < self.vault.entities@.len(),
                forall|j: int| 0 <= j < o@.len() ==> (#[trigger] o@[j]) < ev.len(),
                steps@ == out_steps(ev, o@.take(k as int)),
            decreases o.len() - k,
        {
            let ei = o[k];
            steps.push(Step { edge: ei, other: self.edges[ei].target, forward: true });
            proof {
                assert(o@.take(k + 1).drop_last() =~= o@.take(k as int));
                assert(ev[ei as int] == self.edges@[ei as int]@);
            }
            k = k + 1;
        }
        let ghost first = steps@;
        let mut k: usize = 0;
        while k < ic.len()
            invariant
                k <= ic.len(),
                ev == edges_view(self.edges@),
                ic@ == incident(ev, idx as int, false),
                forall|j: int| 0 <= j < self.edges@.len() ==> (#[trigger] self.edges@[j]).source < self.vault.entities@.len() && self.edges@[j].target < self.vault.entities@.len(),
                forall|j: int| 0 <= j < ic@.len() ==> (#[trigger] ic@[j]) < ev.len(),
                steps@ == first + in_steps(ev, ic@.take(k as int)),
            decreases ic.len() - k,
        {
            let ei = ic[k];
            steps.push(Step { edge: ei, other: self.edges[ei].source, forward: false });
            proof {
                assert(ic@.take(k + 1).drop_last() =~= ic@.take(k as int));
                assert(ev[ei as int] == self.edges@[ei as int]@);
                assert(first + in_steps(ev, ic@.take(k + 1)) =~= (first + in_steps(ev, ic@.take(k as int))).push(steps@.last()));
            }
            k = k + 1;
        }
        assert(o@.take(o@.len() as int) =~= o@);
        assert(ic@.take(ic@.len() as int) =~= ic@);
        steps
    }

    /// Propagation-digraph steps from a node: where does a change at `idx`
    /// travel next? For an edge A→B, `to-source` runs target→source,
    /// `to-target` source→target; `both` either way, `none` never.
    pub fn propagation(&self, idx: usize) -> (r: Vec<Step>)
        requires
            idx < self.vault_spec().entities@.len(),
        ensures
            r@ == propagation_steps(self.vault_spec().schema@, self.edges_spec(), idx as int),
    {
        let all = self.undirected(idx);
        let ghost ev = self.edges_spec();
        let ghost sch = self.vault_spec().schema@;
        proof {
            lemma_steps_in_range(self, idx as int);
        }
        let mut r: Vec<Step> = Vec::new();
        let mut k: usize = 0;
        while k < all.len()
            invariant
                k <= all.len(),
                ev == self.edges_spec(),
                sch == self.vault_spec().schema@,
                all@ == undirected_steps(ev, idx as int),
                forall|j: int| 0 <= j < all@.len() ==> (#[trigger] all@[j]).edge < ev.len(),
                r@ == all@.take(k as int).filter(|st: Step| carries_change(sch, ev, st)),
            decreases all.len() - k,
        {
            let st = all[k];
            let edges = self.edges();
            let p = match relation_propagation(&self.vault.schema, edges[st.edge].rel.as_str()) {
                Some(p) => p,
                None => Propagation::Neither,
            };
            let keep = match p {
                Propagation::Both => true,
                Propagation::Neither => false,
                Propagation::ToSource => !st.forward,
                Propagation::ToTarget => st.forward,
            };
            proof {
                assert(ev[st.edge as int] == edges@[st.edge as int]@);
                assert(all@.take(k + 1).drop_last() =~= all@.take(k as int));
                reveal_with_fuel(Seq::filter, 1);
            }
            if keep {
                r.push(st);
            }
            k = k + 1;
        }
        assert(all@.take(all@.len() as int) =~= all@);
        r
    }

    pub fn vault(&self) -> (r: &'a Vault)
        ensures
            *r == self.vault_spec(),
    {
        self.vault
    }
}


/// The symmetry flag of relation type `rel`, when it is declared.
pub fn relation_symmetric(schema: &Schema, rel: &str) -> (r: Option<bool>)
    ensures
        match r {
            Some(sym) => declares_relation(schema@, rel@) && sym == is_symmetric_in(schema@, rel@),
            None => !declares_relation(schema@, rel@),
        },
{
    assert(schema@.relations.map_values(|p: (Seq<char>, RelationDeclV)| p.0) =~= keys_of(
        schema.relations@,
    ));
    match crate::model::find_key(&schema.relations, rel) {
        Some(i) => Some(schema.relations[i].1.symmetric),
        None => None,
    }
}

/// The last entity with identity `r`.
pub fn last_entity_index(es: &Vec<Entity>, r: &EntityRef) -> (i: Option<usize>)
    ensures
        match i {
            Some(x) => last_index(entities_view(es@), r@) == Some(x as int) && x < es@.len(),
            None => last_index(entities_view(es@), r@) is None,
        },
{
    let ghost ev = entities_view(es@);
    let mut k: usize = es.len();
    assert(ev.take(k as int) =~= ev);
    while k > 0
        invariant
            k <= es.len(),
            ev == entities_view(es@),
            last_index(ev, r@) == last_index(ev.take(k as int), r@),
        decreases k,
    {
        proof {
            let t = ev.take(k as int);
            assert(t.last() == es@[k - 1]@);
            assert(t.drop_last() =~= ev.take(k - 1));
        }
        if es[k - 1].eref.same(r) {
            return Some(k - 1);
        }
        k = k - 1;
    }
    None
}

/// Is there an edge with key `(a, rel, b)` among `edges`?
fn key_in_edges(schema: &Schema, edges: &Vec<Edge>, a: usize, rel: &str, b: usize) -> (r: bool)
    ensures
        r == key_taken(schema@, edges_view(edges@), (a as int, rel@, b as int)),
{
    let ghost ev = edges_view(edges@);
    let mut j: usize = 0;
    while j < edges.len()
        invariant
            j <= edges.len(),
            ev == edges_view(edges@),
            forall|q: int| 0 <= q < j ==> key_of_edge(schema@, #[trigger] ev[q]) != (a as int, rel@, b as int),
        decreases edges.len() - j,
    {
        let e = &edges[j];
        let sym = match relation_symmetric(schema, e.rel.as_str()) {
            Some(s) => s,
            None => false,
        };
        let (x, y) = if sym {
            if e.source <= e.target { (e.source, e.target) } else { (e.target, e.source) }
        } else {
            (e.source, e.target)
        };
        assert(ev[j as int] == e@);
        if x == a && y == b && crate::text::str_eq(e.rel.as_str(), rel) {
            assert(key_of_edge(schema@, ev[j as int]) == (a as int, rel@, b as int));
            return true;
        }
        j = j + 1;
    }
    false
}

pub open spec fn out_steps(ev: Seq<EdgeV>, ids: Seq<usize>) -> Seq<Step>
    decreases ids.len(),
{
    if ids.len() == 0 {
        seq![]
    } else {
        out_steps(ev, ids.drop_last()).push(
            Step { edge: ids.last(), other: ev[ids.last() as int].target as usize, forward: true },
        )
    }
}

pub open spec fn in_steps(ev: Seq<EdgeV>, ids: Seq<usize>) -> Seq<Step>
    decreases ids.len(),
{
    if ids.len() == 0 {
        seq![]
    } else {
        in_steps(ev, ids.drop_last()).push(
            Step { edge: ids.last(), other: ev[ids.last() as int].source as usize, forward: false },
        )
    }
}

/// Outgoing edges forward, then incoming edges backward.
pub open spec fn undirected_steps(ev: Seq<EdgeV>, idx: int) -> Seq<Step> {
    out_steps(ev, incident(ev, idx, true)) + in_steps(ev, incident(ev, idx, false))
}

pub open spec fn relation_propagation_of(schema: crate::model::SchemaV, rel: Seq<char>) -> Option<
    Propagation,
> {
    match key_index(schema.relations.map_values(|p: (Seq<char>, RelationDeclV)| p.0), rel) {
        Some(i) => Some(schema.relations[i].1.propagation),
        None => None,
    }
}

/// Does a change travel along this step?
pub open spec fn carries_change(schema: crate::model::SchemaV, ev: Seq<EdgeV>, st: Step) -> bool {
    match relation_propagation_of(schema, ev[st.edge as int].rel) {
        Some(Propagation::Both) => true,
        Some(Propagation::ToSource) => !st.forward,
        Some(Propagation::ToTarget) => st.forward,
        _ => false,
    }
}

pub open spec fn propagation_steps(schema: crate::model::SchemaV, ev: Seq<EdgeV>, idx: int) -> Seq<
    Step,
> {
    undirected_steps(ev, idx).filter(|st: Step| carries_change(schema, ev, st))
}

/// Propagation steps follow the schema: a change crosses an edge only where
/// the edge's relation type is declared and its propagation runs that way
/// (`to-target` from source to target, `to-source` from target to source,
/// `both` either way, `none` never); every undirected step that such a
/// declaration allows is taken.
pub proof fn lemma_propagation_follows_declarations(schema: crate::model::SchemaV, ev: Seq<EdgeV>, idx: int, n: int)
    requires
        edges_in_range(ev, n),
        n <= usize::MAX,
        ev.len() <= usize::MAX,
    ensures
        forall|j: int|
            0 <= j < propagation_steps(schema, ev, idx).len() ==> {
                let st = #[trigger] propagation_steps(schema, ev, idx)[j];
                let e = ev[st.edge as int];
                &&& st.edge < ev.len()
                &&& (st.forward ==> e.source == idx && st.other == e.target)
                &&& (!st.forward ==> e.target == idx && st.other == e.source)
                &&& exists|i: int|
                    0 <= i < schema.relations.len() && (#[trigger] schema.relations[i]).0 == e.rel && {
                        let p = schema.relations[i].1.propagation;
                        p is Both || (p is ToTarget && st.forward) || (p is ToSource && !st.forward)
                    }
            },
        forall|j: int|
            0 <= j < undirected_steps(ev, idx).len() ==> {
                let st = #[trigger] undirected_steps(ev, idx)[j];
                let rel = ev[st.edge as int].rel;
                (exists|i: int| 0 <= i < schema.relations.len() && schema.relations[i].0 == rel)
                    && (forall|i: int|
                    0 <= i < schema.relations.len() && #[trigger] schema.relations[i].0 == rel ==> {
                        let p = schema.relations[i].1.propagation;
                        p is Both || (p is ToTarget && st.forward) || (p is ToSource && !st.forward)
                    }) ==> propagation_steps(schema, ev, idx).contains(st)
            },
{
    broadcast use vstd::seq_lib::group_filter_ensures;

    let u = undirected_steps(ev, idx);
    let keys = schema.relations.map_values(|p: (Seq<char>, RelationDeclV)| p.0);
    let f = |st: Step| carries_change(schema, ev, st);
    lemma_steps_ends(ev, idx, n);
    assert forall|j: int| 0 <= j < propagation_steps(schema, ev, idx).len() implies {
        let st = #[trigger] propagation_steps(schema, ev, idx)[j];
        let e = ev[st.edge as int];
        &&& st.edge < ev.len()
        &&& (st.forward ==> e.source == idx && st.other == e.target)
        &&& (!st.forward ==> e.target == idx && st.other == e.source)
        &&& exists|i: int|
            0 <= i < schema.relations.len() && (#[trigger] schema.relations[i]).0 == e.rel && {
                let p = schema.relations[i].1.propagation;
                p is Both || (p is ToTarget && st.forward) || (p is ToSource && !st.forward)
            }
    } by {
        let ps = propagation_steps(schema, ev, idx);
        let st = ps[j];
        assert(ps == u.filter(f));
        assert(ps.contains(st));
        u.lemma_filter_contains_rev(f, st);
        let k = choose|k: int| 0 <= k < u.len() && u[k] == st;
        assert(carries_change(schema, ev, st));
        let rel = ev[st.edge as int].rel;
        crate::model::lemma_key_index(keys, rel);
        let i = key_index(keys, rel)->0;
        assert(keys[i] == schema.relations[i].0);
    }
    assert forall|j: int| 0 <= j < undirected_steps(ev, idx).len() implies {
        let st = #[trigger] undirected_steps(ev, idx)[j];
        let rel = ev[st.edge as int].rel;
        (exists|i: int| 0 <= i < schema.relations.len() && schema.relations[i].0 == rel)
            && (forall|i: int|
            0 <= i < schema.relations.len() && #[trigger] schema.relations[i].0 == rel ==> {
                let p = schema.relations[i].1.propagation;
                p is Both || (p is ToTarget && st.forward) || (p is ToSource && !st.forward)
            }) ==> propagation_steps(schema, ev, idx).contains(st)
    } by {
        let st = u[j];
        let rel = ev[st.edge as int].rel;
        if (exists|i: int| 0 <= i < schema.relations.len() && schema.relations[i].0 == rel) && (forall|i: int|
            0 <= i < schema.relations.len() && #[trigger] schema.relations[i].0 == rel ==> {
                let p = schema.relations[i].1.propagation;
                p is Both || (p is ToTarget && st.forward) || (p is ToSource && !st.forward)
            }) {
            let i0 = choose|i: int| 0 <= i < schema.relations.len() && schema.relations[i].0 == rel;
            assert(keys[i0] == rel);
            crate::model::lemma_key_index(keys, rel);
            let i = key_index(keys, rel)->0;
            assert(keys[i] == schema.relations[i].0);
            assert(f(st));
        }
    }
}

/// The propagation of relation type `rel`, when it is declared.
pub fn relation_propagation(schema: &Schema, rel: &str) -> (r: Option<Propagation>)
    ensures
        r == relation_propagation_of(schema@, rel@),
{
    assert(schema@.relations.map_values(|p: (Seq<char>, RelationDeclV)| p.0) =~= keys_of(
        schema.relations@,
    ));
    match crate::model::find_key(&schema.relations, rel) {
        Some(i) => Some(schema.relations[i].1.propagation),
        None => None,
    }
}

pub proof fn lemma_incident_range(ev: Seq<EdgeV>, idx: int, outgoing: bool)
    ensures
        forall|j: int|
            0 <= j < incident(ev, idx, outgoing).len() ==> (#[trigger] incident(ev, idx, outgoing)[j])
                < ev.len(),
    decreases ev.len(),
{
    if ev.len() > 0 {
        lemma_incident_range(ev.drop_last(), idx, outgoing);
        let before = incident(ev.drop_last(), idx, outgoing);
        let all = incident(ev, idx, outgoing);
        assert forall|j: int| 0 <= j < all.len() implies (#[trigger] all[j]) < ev.len() by {
            if j < before.len() {
                assert(all[j] == before[j]);
            }
        }
    }
}

proof fn lemma_out_steps(ev: Seq<EdgeV>, ids: Seq<usize>)
    requires
        forall|j: int| 0 <= j < ids.len() ==> (#[trigger] ids[j]) < ev.len(),
    ensures
        out_steps(ev, ids).len() == ids.len(),
        forall|j: int| 0 <= j < ids.len() ==> (#[trigger] out_steps(ev, ids)[j]).edge == ids[j],
    decreases ids.len(),
{
    if ids.len() > 0 {
        lemma_out_steps(ev, ids.drop_last());
    }
}

proof fn lemma_in_steps(ev: Seq<EdgeV>, ids: Seq<usize>)
    requires
        forall|j: int| 0 <= j < ids.len() ==> (#[trigger] ids[j]) < ev.len(),
    ensures
        in_steps(ev, ids).len() == ids.len(),
        forall|j: int| 0 <= j < ids.len() ==> (#[trigger] in_steps(ev, ids)[j]).edge == ids[j],
    decreases ids.len(),
{
    if ids.len() > 0 {
        lemma_in_steps(ev, ids.drop_last());
    }
}

proof fn lemma_steps_in_range(g: &Graph, idx: int)
    ensures
        forall|j: int|
            0 <= j < undirected_steps(g.edges_spec(), idx).len() ==> (#[trigger] undirected_steps(
                g.edges_spec(),
                idx,
            )[j]).edge < g.edges_spec().len(),
{
    let ev = g.edges_spec();
    lemma_incident_range(ev, idx, true);
    lemma_incident_range(ev, idx, false);
    lemma_out_steps(ev, incident(ev, idx, true));
    lemma_in_steps(ev, incident(ev, idx, false));
    let a = out_steps(ev, incident(ev, idx, true));
    let b = in_steps(ev, incident(ev, idx, false));
    assert forall|j: int| 0 <= j < (a + b).len() implies (#[trigger] (a + b)[j]).edge < ev.len() by {
        if j < a.len() {
            assert((a + b)[j] == a[j]);
        } else {
            assert((a + b)[j] == b[j - a.len()]);
        }
    }
}

/// Every edge joins two existing entities.
pub open spec fn edges_in_range(ev: Seq<EdgeV>, n: int) -> bool {
    forall|j: int|
        0 <= j < ev.len() ==> 0 <= (#[trigger] ev[j]).source < n && 0 <= ev[j].target < n
}

proof fn lemma_out_steps_bounds(ev: Seq<EdgeV>, ids: Seq<usize>, n: int)
    requires
        edges_in_range(ev, n),
        forall|j: int| 0 <= j < ids.len() ==> (#[trigger] ids[j]) < ev.len(),
    ensures
        forall|j: int|
            0 <= j < out_steps(ev, ids).len() ==> (#[trigger] out_steps(ev, ids)[j]).edge < ev.len()
                && out_steps(ev, ids)[j].other < n,
        forall|j: int|
            0 <= j < in_steps(ev, ids).len() ==> (#[trigger] in_steps(ev, ids)[j]).edge < ev.len()
                && in_steps(ev, ids)[j].other < n,
    decreases ids.len(),
{
    if ids.len() > 0 {
        lemma_out_steps_bounds(ev, ids.drop_last(), n);
        let a = out_steps(ev, ids);
        let b = in_steps(ev, ids);
        assert forall|j: int| 0 <= j < a.len() implies (#[trigger] a[j]).edge < ev.len() && a[j].other
            < n by {
            if j < a.len() - 1 {
                assert(a[j] == out_steps(ev, ids.drop_last())[j]);
            }
        }
        assert forall|j: int| 0 <= j < b.len() implies (#[trigger] b[j]).edge < ev.len() && b[j].other
            < n by {
            if j < b.len() - 1 {
                assert(b[j] == in_steps(ev, ids.drop_last())[j]);
            }
        }
    }
}

/// Steps from an entity use existing edges and lead to existing entities.
pub proof fn lemma_steps_bounds(g: &Graph, idx: int)
    requires
        edges_in_range(g.edges_spec(), g.vault_spec().entities@.len() as int),
    ensures
        forall|j: int|
            0 <= j < undirected_steps(g.edges_spec(), idx).len() ==> (#[trigger] undirected_steps(
                g.edges_spec(),
                idx,
            )[j]).edge < g.edges_spec().len() && undirected_steps(g.edges_spec(), idx)[j].other
                < g.vault_spec().entities@.len(),
        forall|j: int|
            0 <= j < propagation_steps(g.vault_spec().schema@, g.edges_spec(), idx).len() ==> (
            #[trigger] propagation_steps(g.vault_spec().schema@, g.edges_spec(), idx)[j]).edge
                < g.edges_spec().len() && propagation_steps(
                g.vault_spec().schema@,
                g.edges_spec(),
                idx,
            )[j].other < g.vault_spec().entities@.len(),
{
    let ev = g.edges_spec();
    let n = g.vault_spec().entities@.len() as int;
    lemma_incident_range(ev, idx, true);
    lemma_incident_range(ev, idx, false);
    lemma_out_steps_bounds(ev, incident(ev, idx, true), n);
    lemma_out_steps_bounds(ev, incident(ev, idx, false), n);
    let a = out_steps(ev, incident(ev, idx, true));
    let b = in_steps(ev, incident(ev, idx, false));
    let u = a + b;
    assert forall|j: int| 0 <= j < u.len() implies (#[trigger] u[j]).edge < ev.len() && u[j].other
        < n by {
        if j < a.len() {
            assert(u[j] == a[j]);
        } else {
            assert(u[j] == b[j - a.len()]);
        }
    }
    let sch = g.vault_spec().schema@;
    let f = |st: Step| carries_change(sch, ev, st);
    let p = u.filter(f);
    assert forall|j: int| 0 <= j < p.len() implies (#[trigger] p[j]).edge < ev.len() && p[j].other
        < n by {
        lemma_filter_within(u, f);
        assert(u.contains(p[j]));
    }
}

/// What a filter keeps comes from the sequence filtered.
pub proof fn lemma_filter_within<A>(s: Seq<A>, f: spec_fn(A) -> bool)
    ensures
        forall|i: int| 0 <= i < s.filter(f).len() ==> s.contains(#[trigger] s.filter(f)[i]),
    decreases s.len(),
{
    reveal(Seq::filter);
    if s.len() > 0 {
        lemma_filter_within(s.drop_last(), f);
        let sub = s.drop_last().filter(f);
        assert forall|i: int| 0 <= i < s.filter(f).len() implies s.contains(
            #[trigger] s.filter(f)[i],
        ) by {
            if i < sub.len() {
                assert(s.filter(f)[i] == sub[i]);
                let k = choose|k: int| 0 <= k < s.drop_last().len() && s.drop_last()[k] == sub[i];
                assert(s[k] == sub[i]);
            } else {
                assert(s.filter(f)[i] == s.last());
                assert(s[s.len() - 1] == s.last());
            }
        }
    }
}


pub proof fn lemma_incident_ends(ev: Seq<EdgeV>, idx: int, outgoing: bool)
    requires
        ev.len() <= usize::MAX,
    ensures
        forall|j: int|
            0 <= j < incident(ev, idx, outgoing).len() ==> (#[trigger] incident(ev, idx, outgoing)[j])
                < ev.len() && (outgoing ==> ev[incident(ev, idx, outgoing)[j] as int].source == idx)
                && (!outgoing ==> ev[incident(ev, idx, outgoing)[j] as int].target == idx),
    decreases ev.len(),
{
    if ev.len() > 0 {
        lemma_incident_ends(ev.drop_last(), idx, outgoing);
        let before = incident(ev.drop_last(), idx, outgoing);
        let all = incident(ev, idx, outgoing);
        assert forall|j: int| 0 <= j < all.len() implies (#[trigger] all[j]) < ev.len() && (outgoing
            ==> ev[all[j] as int].source == idx) && (!outgoing ==> ev[all[j] as int].target == idx) by {
            if j < before.len() {
                assert(all[j] == before[j]);
                assert(ev[before[j] as int] == ev.drop_last()[before[j] as int]);
            } else {
                assert(all[j] == (ev.len() - 1) as usize);
                assert(ev[ev.len() - 1] == ev.last());
            }
        }
    }
}

proof fn lemma_out_in_ends(ev: Seq<EdgeV>, ids: Seq<usize>, n: int)
    requires
        edges_in_range(ev, n),
        forall|j: int| 0 <= j < ids.len() ==> (#[trigger] ids[j]) < ev.len(),
    ensures
        out_steps(ev, ids).len() == ids.len(),
        in_steps(ev, ids).len() == ids.len(),
        forall|j: int|
            0 <= j < ids.len() ==> (#[trigger] out_steps(ev, ids)[j]) == (Step {
                edge: ids[j],
                other: ev[ids[j] as int].target as usize,
                forward: true,
            }),
        forall|j: int|
            0 <= j < ids.len() ==> (#[trigger] in_steps(ev, ids)[j]) == (Step {
                edge: ids[j],
                other: ev[ids[j] as int].source as usize,
                forward: false,
            }),
    decreases ids.len(),
{
    if ids.len() > 0 {
        lemma_out_in_ends(ev, ids.drop_last(), n);
        assert forall|j: int| 0 <= j < ids.len() implies (#[trigger] out_steps(ev, ids)[j]) == (Step {
            edge: ids[j],
            other: ev[ids[j] as int].target as usize,
            forward: true,
        }) by {
            if j < ids.len() - 1 {
                assert(out_steps(ev, ids)[j] == out_steps(ev, ids.drop_last())[j]);
            }
        }
        assert forall|j: int| 0 <= j < ids.len() implies (#[trigger] in_steps(ev, ids)[j]) == (Step {
            edge: ids[j],
            other: ev[ids[j] as int].source as usize,
            forward: false,
        }) by {
            if j < ids.len() - 1 {
                assert(in_steps(ev, ids)[j] == in_steps(ev, ids.drop_last())[j]);
            }
        }
    }
}

/// Where a hop over edge `e` leads: its target taken forward, its source backward.
pub open spec fn hop_end(ev: Seq<EdgeV>, e: usize, forward: bool) -> int {
    if forward {
        ev[e as int].target
    } else {
        ev[e as int].source
    }
}

/// An undirected step from `idx` leaves over an edge that touches `idx` and
/// lands on that edge's other end.
pub proof fn lemma_steps_ends(ev: Seq<EdgeV>, idx: int, n: int)
    requires
        edges_in_range(ev, n),
        n <= usize::MAX,
        ev.len() <= usize::MAX,
    ensures
        forall|j: int|
            0 <= j < undirected_steps(ev, idx).len() ==> {
                let st = #[trigger] undirected_steps(ev, idx)[j];
                &&& st.edge < ev.len()
                &&& st.other as int == hop_end(ev, st.edge, st.forward)
                &&& (st.forward ==> ev[st.edge as int].source == idx)
                &&& (!st.forward ==> ev[st.edge as int].target == idx)
            },
{
    lemma_incident_ends(ev, idx, true);
    lemma_incident_ends(ev, idx, false);
    let o = incident(ev, idx, true);
    let i = incident(ev, idx, false);
    lemma_out_in_ends(ev, o, n);
    lemma_out_in_ends(ev, i, n);
    let a = out_steps(ev, o);
    let b = in_steps(ev, i);
    assert forall|j: int| 0 <= j < (a + b).len() implies {
        let st = #[trigger] (a + b)[j];
        &&& st.edge < ev.len()
        &&& st.other as int == hop_end(ev, st.edge, st.forward)
        &&& (st.forward ==> ev[st.edge as int].source == idx)
        &&& (!st.forward ==> ev[st.edge as int].target == idx)
    } by {
        if j < a.len() {
            assert((a + b)[j] == a[j]);
            assert(a[j] == out_steps(ev, o)[j]);
        } else {
            assert((a + b)[j] == b[j - a.len()]);
            assert(b[j - a.len()] == in_steps(ev, i)[j - a.len()]);
        }
    }
}


/// Every edge leaving (or, when `!outgoing`, entering) `idx` is listed.
pub proof fn lemma_incident_complete(ev: Seq<EdgeV>, idx: int, outgoing: bool, e: int)
    requires
        0 <= e < ev.len(),
        ev.len() <= usize::MAX,
        outgoing ==> ev[e].source == idx,
        !outgoing ==> ev[e].target == idx,
    ensures
        incident(ev, idx, outgoing).contains(e as usize),
    decreases ev.len(),
{
    let all = incident(ev, idx, outgoing);
    if e < ev.len() - 1 {
        assert(ev.drop_last()[e] == ev[e]);
        lemma_incident_complete(ev.drop_last(), idx, outgoing, e);
        let before = incident(ev.drop_last(), idx, outgoing);
        let k = choose|k: int| 0 <= k < before.len() && before[k] == e as usize;
        assert(all[k] == before[k]);
    } else {
        assert(ev.last() == ev[e]);
        assert(all[all.len() - 1] == e as usize);
    }
}

/// The incident edges are listed in increasing order.
pub proof fn lemma_incident_increasing(ev: Seq<EdgeV>, idx: int, outgoing: bool)
    requires
        ev.len() <= usize::MAX,
    ensures
        forall|i: int, j: int|
            0 <= i < j < incident(ev, idx, outgoing).len() ==> #[trigger] incident(ev, idx, outgoing)[i]
                < #[trigger] incident(ev, idx, outgoing)[j],
    decreases ev.len(),
{
    if ev.len() > 0 {
        lemma_incident_increasing(ev.drop_last(), idx, outgoing);
        lemma_incident_ends(ev.drop_last(), idx, outgoing);
        let before = incident(ev.drop_last(), idx, outgoing);
        let all = incident(ev, idx, outgoing);
        assert forall|i: int, j: int| 0 <= i < j < all.len() implies #[trigger] all[i] < #[trigger] all[j] by {
            assert(all[i] == before[i]);
            if j < before.len() {
                assert(all[j] == before[j]);
            } else {
                assert(before[i] < ev.drop_last().len());
                assert(all[j] == (ev.len() - 1) as usize);
            }
        }
    }
}

/// No two undirected steps from `idx` take the same edge the same way.
pub proof fn lemma_steps_distinct(ev: Seq<EdgeV>, idx: int, n: int)
    requires
        edges_in_range(ev, n),
        ev.len() <= usize::MAX,
    ensures
        forall|i: int, j: int|
            0 <= i < j < undirected_steps(ev, idx).len() ==> (#[trigger] undirected_steps(ev, idx)[i]).edge
                != (#[trigger] undirected_steps(ev, idx)[j]).edge || undirected_steps(ev, idx)[i].forward
                != undirected_steps(ev, idx)[j].forward,
{
    lemma_incident_ends(ev, idx, true);
    lemma_incident_ends(ev, idx, false);
    lemma_incident_increasing(ev, idx, true);
    lemma_incident_increasing(ev, idx, false);
    let o = incident(ev, idx, true);
    let c = incident(ev, idx, false);
    lemma_out_in_ends(ev, o, n);
    lemma_out_in_ends(ev, c, n);
    let a = out_steps(ev, o);
    let b = in_steps(ev, c);
    assert forall|i: int, j: int| 0 <= i < j < (a + b).len() implies (#[trigger] (a + b)[i]).edge != (
    #[trigger] (a + b)[j]).edge || (a + b)[i].forward != (a + b)[j].forward by {
        if j < a.len() {
            assert((a + b)[i] == a[i] && (a + b)[j] == a[j]);
            assert(o[i] < o[j]);
        } else if i >= a.len() {
            assert((a + b)[i] == b[i - a.len()] && (a + b)[j] == b[j - a.len()]);
            assert(c[i - a.len()] < c[j - a.len()]);
        } else {
            assert((a + b)[i] == a[i] && (a + b)[j] == b[j - a.len()]);
        }
    }
}

/// An undirected step can be taken back: from where it lands, the same
/// edge the other way leads back.
pub proof fn lemma_step_back(ev: Seq<EdgeV>, a: int, j: int, n: int)
    requires
        edges_in_range(ev, n),
        ev.len() <= usize::MAX,
        n <= usize::MAX,
        0 <= j < undirected_steps(ev, a).len(),
    ensures
        exists|k: int|
            0 <= k < undirected_steps(ev, undirected_steps(ev, a)[j].other as int).len() && (#[trigger] undirected_steps(
                ev,
                undirected_steps(ev, a)[j].other as int,
            )[k]).edge == undirected_steps(ev, a)[j].edge && undirected_steps(
                ev,
                undirected_steps(ev, a)[j].other as int,
            )[k].forward == !undirected_steps(ev, a)[j].forward && undirected_steps(
                ev,
                undirected_steps(ev, a)[j].other as int,
            )[k].other as int == a,
{
    lemma_steps_ends(ev, a, n);
    let st = undirected_steps(ev, a)[j];
    let b = st.other as int;
    let e = st.edge as int;
    lemma_incident_ends(ev, b, true);
    lemma_incident_ends(ev, b, false);
    let o = incident(ev, b, true);
    let c = incident(ev, b, false);
    lemma_out_in_ends(ev, o, n);
    lemma_out_in_ends(ev, c, n);
    let sa = out_steps(ev, o);
    let sb = in_steps(ev, c);
    assert(undirected_steps(ev, b) == sa + sb);
    if st.forward {
        assert(ev[e].target == b);
        lemma_incident_complete(ev, b, false, e);
        let q = choose|q: int| 0 <= q < c.len() && c[q] == e as usize;
        assert((sa + sb)[sa.len() + q] == sb[q]);
        assert(sb[q].other as int == ev[e].source);
    } else {
        assert(ev[e].source == b);
        lemma_incident_complete(ev, b, true, e);
        let q = choose|q: int| 0 <= q < o.len() && o[q] == e as usize;
        assert((sa + sb)[q] == sa[q]);
        assert(sa[q].other as int == ev[e].target);
    }
}

} // verus!
