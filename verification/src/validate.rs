//! Validation: the schema's own checks, every relation entry of every
//! entity, orphans, acyclic relation types and source anchors, reported in
//! one ordered list. It is the reconciler for whatever bypassed the write
//! path, and the CI gate.

use vstd::prelude::*;
use crate::diag::{diags_view, Diagnostic, DiagnosticV, Report, Severity};
use crate::model::{canonical, capped_distance, levenshtein_capped, strs, Entity, EntityRef};
use crate::sort::{key_lt, key_view, keys_view, KeyPartV, SortKey};

verus! {

// ───────────────────────────── suggestions ─────────────────────────────

pub open spec fn second(b: (int, nat)) -> nat {
    b.1
}

pub open spec fn first(b: (int, nat)) -> int {
    b.0
}

/// Among the first `k` candidates, the first one at the least capped
/// distance to `input`, when that distance is at most 2.
pub open spec fn closest_upto(input: Seq<char>, cands: Seq<Seq<char>>, k: nat) -> Option<(int, nat)>
    decreases k,
{
    if k == 0 {
        None
    } else {
        let b = closest_upto(input, cands, (k - 1) as nat);
        let d = capped_distance(cands[k - 1], input, 2);
        if d <= 2 && (b is None || d < second(b->0)) {
            Some(((k - 1) as int, d))
        } else {
            b
        }
    }
}

/// The closest candidate within distance 2, the earliest on ties.
pub open spec fn closest_spec(input: Seq<char>, cands: Seq<Seq<char>>) -> Option<Seq<char>> {
    match closest_upto(input, cands, cands.len()) {
        Some(b) => Some(cands[first(b)]),
        None => None,
    }
}

/// The closest of `candidates` to `input` within edit distance 2, the
/// earliest on ties.
pub fn closest(input: &str, candidates: &Vec<String>) -> (r: Option<String>)
    ensures
        crate::model::opt_text(r) == closest_spec(input@, strs(candidates@)),
{
    let ghost cs = strs(candidates@);
    let mut best: Option<(usize, usize)> = None;
    let mut k: usize = 0;
    while k < candidates.len()
        invariant
            k <= candidates.len(),
            cs == strs(candidates@),
            match best {
                Some((i, d)) => closest_upto(input@, cs, k as nat) == Some((i as int, d as nat)) && i < k,
                None => closest_upto(input@, cs, k as nat) is None,
            },
        decreases candidates.len() - k,
    {
        let d = levenshtein_capped(candidates[k].as_str(), input, 2);
        proof {
            assert(cs[k as int] == candidates@[k as int]@);
        }
        let better = match best {
            Some((_, bd)) => d < bd,
            None => true,
        };
        if d <= 2 && better {
            best = Some((k, d));
        }
        k = k + 1;
    }
    match best {
        Some((i, _)) => {
            proof {
                assert(cs[i as int] == candidates@[i as int]@);
            }
            Some(candidates[i].clone())
        },
        None => None,
    }
}

/// The names of the entries of a keyed list.
pub fn key_names<V>(m: &Vec<(String, V)>) -> (r: Vec<String>)
    ensures
        strs(r@) == crate::model::keys_of(m@),
{
    let mut r: Vec<String> = Vec::new();
    let mut i: usize = 0;
    while i < m.len()
        invariant
            i <= m.len(),
            strs(r@) == crate::model::keys_of(m@).take(i as int),
        decreases m.len() - i,
    {
        r.push(m[i].0.clone());
        proof {
            assert(strs(r@) =~= strs(r@.drop_last()).push(r@.last()@));
            assert(crate::model::keys_of(m@).take(i + 1) =~= crate::model::keys_of(m@).take(i as int).push(
                m@[i as int].0@,
            ));
        }
        i = i + 1;
    }
    assert(crate::model::keys_of(m@).take(m@.len() as int) =~= crate::model::keys_of(m@));
    r
}

pub type RefV = (Seq<char>, Seq<char>, Seq<char>);

/// Among the first `k` refs, the first same-kind one at the least capped
/// name distance (at most 2) to `t`.
pub open spec fn same_kind_upto(t: RefV, refs: Seq<RefV>, k: nat) -> Option<(int, nat)>
    decreases k,
{
    if k == 0 {
        None
    } else {
        let b = same_kind_upto(t, refs, (k - 1) as nat);
        let r = refs[k - 1];
        let d = capped_distance(r.2, t.2, 2);
        if r.0 == t.0 && d <= 2 && (b is None || d < second(b->0)) {
            Some(((k - 1) as int, d))
        } else {
            b
        }
    }
}

/// The first of the first `k` refs with `t`'s name (`near`: a name within
/// capped distance 2 of it).
pub open spec fn first_named_upto(t: RefV, refs: Seq<RefV>, near: bool, k: nat) -> Option<int>
    decreases k,
{
    if k == 0 {
        None
    } else {
        match first_named_upto(t, refs, near, (k - 1) as nat) {
            Some(i) => Some(i),
            None => if (if near {
                capped_distance(refs[k - 1].2, t.2, 2) <= 2
            } else {
                refs[k - 1].2 == t.2
            }) {
                Some((k - 1) as int)
            } else {
                None
            },
        }
    }
}

/// The suggestion for a ref that resolves to nothing: the same kind at name
/// distance at most 2 first, then the same name under another kind or
/// namespace, then any ref at name distance at most 2.
pub open spec fn did_you_mean_spec(t: RefV, refs: Seq<RefV>) -> Option<Seq<char>> {
    match same_kind_upto(t, refs, refs.len()) {
        Some(b) => Some(canonical(refs[first(b)])),
        None => match first_named_upto(t, refs, false, refs.len()) {
            Some(i) => Some(canonical(refs[i])),
            None => match first_named_upto(t, refs, true, refs.len()) {
                Some(i) => Some(canonical(refs[i])),
                None => None,
            },
        },
    }
}

proof fn lemma_first_named_stable(t: RefV, refs: Seq<RefV>, near: bool, k: nat, m: nat)
    requires
        k <= m,
        first_named_upto(t, refs, near, k) is Some,
    ensures
        first_named_upto(t, refs, near, m) == first_named_upto(t, refs, near, k),
    decreases m,
{
    if m > k {
        lemma_first_named_stable(t, refs, near, k, (m - 1) as nat);
    }
}

pub open spec fn refs_view(v: Seq<EntityRef>) -> Seq<RefV> {
    v.map_values(|r: EntityRef| r@)
}

fn first_named(target: &EntityRef, refs: &Vec<EntityRef>, near: bool) -> (r: Option<usize>)
    ensures
        match r {
            Some(i) => first_named_upto(target@, refs_view(refs@), near, refs@.len() as nat) == Some(i as int)
                && i < refs@.len(),
            None => first_named_upto(target@, refs_view(refs@), near, refs@.len() as nat) is None,
        },
{
    let ghost rv = refs_view(refs@);
    let mut k: usize = 0;
    while k < refs.len()
        invariant
            k <= refs.len(),
            rv == refs_view(refs@),
            first_named_upto(target@, rv, near, k as nat) is None,
        decreases refs.len() - k,
    {
        proof {
            assert(rv[k as int] == refs@[k as int]@);
        }
        let hit = if near {
            levenshtein_capped(refs[k].name.as_str(), target.name.as_str(), 2) <= 2
        } else {
            crate::text::str_eq(refs[k].name.as_str(), target.name.as_str())
        };
        if hit {
            proof {
                lemma_first_named_stable(target@, rv, near, (k + 1) as nat, refs@.len() as nat);
            }
            return Some(k);
        }
        k = k + 1;
    }
    None
}

/// What a ref that resolves to nothing was likely meant to be, among `refs`
/// in their order: the same kind at name distance at most 2 first (the
/// nearest, then the earliest), then the first with the same name, then the
/// first at name distance at most 2.
pub fn did_you_mean(target: &EntityRef, refs: &Vec<EntityRef>) -> (r: Option<String>)
    ensures
        crate::model::opt_text(r) == did_you_mean_spec(target@, refs_view(refs@)),
{
    let ghost rv = refs_view(refs@);
    let mut best: Option<(usize, usize)> = None;
    let mut k: usize = 0;
    while k < refs.len()
        invariant
            k <= refs.len(),
            rv == refs_view(refs@),
            match best {
                Some((i, d)) => same_kind_upto(target@, rv, k as nat) == Some((i as int, d as nat)) && i < k,
                None => same_kind_upto(target@, rv, k as nat) is None,
            },
        decreases refs.len() - k,
    {
        proof {
            assert(rv[k as int] == refs@[k as int]@);
        }
        if crate::text::str_eq(refs[k].kind.as_str(), target.kind.as_str()) {
            let d = levenshtein_capped(refs[k].name.as_str(), target.name.as_str(), 2);
            let better = match best {
                Some((_, bd)) => d < bd,
                None => true,
            };
            if d <= 2 && better {
                best = Some((k, d));
            }
        }
        k = k + 1;
    }
    match best {
        Some((i, _)) => {
            proof {
                assert(rv[i as int] == refs@[i as int]@);
            }
            return Some(refs[i].to_string());
        },
        None => {},
    }
    match first_named(target, refs, false) {
        Some(i) => {
            proof {
                assert(rv[i as int] == refs@[i as int]@);
            }
            return Some(refs[i].to_string());
        },
        None => {},
    }
    match first_named(target, refs, true) {
        Some(i) => {
            proof {
                assert(rv[i as int] == refs@[i as int]@);
            }
            Some(refs[i].to_string())
        },
        None => None,
    }
}

// ───────────────────────────── refs in order ─────────────────────────────

/// The order of refs: by kind, then namespace, then name.
pub open spec fn ref_key(r: RefV) -> Seq<KeyPartV> {
    seq![KeyPartV::Text(r.0), KeyPartV::Text(r.1), KeyPartV::Text(r.2)]
}

pub fn ref_sort_key(r: &EntityRef) -> (k: SortKey)
    ensures
        key_view(k) == ref_key(r@),
{
    let mut k = crate::sort::empty_key();
    crate::sort::push_text(&mut k, r.kind.as_str());
    crate::sort::push_text(&mut k, r.ns.as_str());
    crate::sort::push_text(&mut k, r.name.as_str());
    assert(key_view(k) =~= ref_key(r@));
    k
}

/// The pair of refs, smaller first.
pub fn ordered(a: &EntityRef, b: &EntityRef) -> (r: (EntityRef, EntityRef))
    ensures
        (r.0@, r.1@) == if !key_lt(ref_key(b@), ref_key(a@)) {
            (a@, b@)
        } else {
            (b@, a@)
        },
{
    let ka = ref_sort_key(a);
    let kb = ref_sort_key(b);
    if !crate::sort::key_less(&kb, &ka) {
        (a.clone(), b.clone())
    } else {
        (b.clone(), a.clone())
    }
}

// ───────────────────────────── small builders ─────────────────────────────

/// The `bad-endpoint` error for relation `rel` of entity `e`.
pub fn bad_endpoint(e: &Entity, rel: &str, msg: &str) -> (r: Diagnostic)
    ensures
        r@ == (DiagnosticV {
            severity: Severity::Error,
            code: "bad-endpoint"@,
            file: Some(e.file@),
            line: match crate::model::line_of_text(e.raw@, rel@) {
                Some(k) => Some(k as usize),
                None => None,
            },
            entity: Some(canonical(e.eref@)),
            path: Some("relations."@ + rel@),
            message: msg@,
            suggestion: None,
        }),
{
    Diagnostic {
        severity: Severity::Error,
        code: "bad-endpoint",
        file: Some(e.file.clone()),
        line: e.line_of(rel),
        entity: Some(e.eref.to_string()),
        path: Some(crate::text::concat("relations.", rel)),
        message: crate::text::owned(msg),
        suggestion: None,
    }
}

/// A copy of a finding.
pub fn clone_diag(d: &Diagnostic) -> (r: Diagnostic)
    ensures
        r@ == d@,
{
    d.duplicate()
}


// ───────────────────────────── ordering ─────────────────────────────

/// Splitting a path at `/` over its first `k` chars: the finished
/// components, and the one in progress.
pub open spec fn split_fold(s: Seq<char>, k: nat) -> (Seq<Seq<char>>, Seq<char>)
    decreases k,
{
    if k == 0 {
        (seq![], seq![])
    } else {
        let (done, cur) = split_fold(s, (k - 1) as nat);
        if s[k - 1] == '/' {
            if cur.len() > 0 {
                (done.push(cur), seq![])
            } else {
                (done, seq![])
            }
        } else {
            (done, cur.push(s[k - 1]))
        }
    }
}

/// The components of a relative path: its non-empty `/`-separated parts.
pub open spec fn path_components(s: Seq<char>) -> Seq<Seq<char>> {
    let (done, cur) = split_fold(s, s.len());
    if cur.len() > 0 {
        done.push(cur)
    } else {
        done
    }
}

/// Findings sort errors first, then by file (component by component, none
/// first), then by line (none first).
pub open spec fn diag_key(d: DiagnosticV) -> Seq<KeyPartV> {
    let sev = seq![KeyPartV::Num(if d.severity == Severity::Warning { 1u64 } else { 0u64 })];
    let file = match d.file {
        None => seq![KeyPartV::Num(0)],
        Some(f) => seq![KeyPartV::Num(1)] + path_components(f).map_values(|c: Seq<char>| KeyPartV::Text(c)),
    };
    let line = match d.line {
        None => seq![KeyPartV::Num(0)],
        Some(l) => seq![KeyPartV::Num(1), KeyPartV::Num(l as u64)],
    };
    sev + file + line
}

fn path_key_parts(s: &str, k: &mut SortKey)
    ensures
        key_view(*final(k)) == key_view(*old(k)) + path_components(s@).map_values(|c: Seq<char>| KeyPartV::Text(c)),
{
    let v = crate::text::chars_of(s);
    let ghost k0 = key_view(*k);
    let mut cur: Vec<char> = Vec::new();
    let mut i: usize = 0;
    while i < v.len()
        invariant
            i <= v.len(),
            v@ == s@,
            cur@ == split_fold(s@, i as nat).1,
            key_view(*k) == k0 + split_fold(s@, i as nat).0.map_values(|c: Seq<char>| KeyPartV::Text(c)),
        decreases v.len() - i,
    {
        if v[i] == '/' {
            if cur.len() > 0 {
                let seg = crate::text::string_of(&cur);
                let ghost before = key_view(*k);
                crate::sort::push_text(k, seg.as_str());
                proof {
                    let d0 = split_fold(s@, i as nat).0;
                    assert(d0.push(cur@).map_values(|c: Seq<char>| KeyPartV::Text(c)) =~= d0.map_values(
                        |c: Seq<char>| KeyPartV::Text(c),
                    ).push(KeyPartV::Text(cur@)));
                    assert(key_view(*k) =~= k0 + split_fold(s@, (i + 1) as nat).0.map_values(|c: Seq<char>| KeyPartV::Text(c)));
                }
                cur = Vec::new();
            }
        } else {
            cur.push(v[i]);
        }
        i = i + 1;
    }
    if cur.len() > 0 {
        let seg = crate::text::string_of(&cur);
        crate::sort::push_text(k, seg.as_str());
        proof {
            let d0 = split_fold(s@, v@.len() as nat).0;
            assert(d0.push(cur@).map_values(|c: Seq<char>| KeyPartV::Text(c)) =~= d0.map_values(
                |c: Seq<char>| KeyPartV::Text(c),
            ).push(KeyPartV::Text(cur@)));
            assert(key_view(*k) =~= key_view(*old(k)) + path_components(s@).map_values(|c: Seq<char>| KeyPartV::Text(c)));
        }
    }
}

/// The sort key of a finding.
pub fn diag_sort_key(d: &Diagnostic) -> (k: SortKey)
    ensures
        key_view(k) == diag_key(d@),
{
    let mut k = crate::sort::num_key(
        match d.severity {
            Severity::Warning => 1,
            Severity::Error => 0,
        },
    );
    match &d.file {
        None => crate::sort::push_num(&mut k, 0),
        Some(f) => {
            crate::sort::push_num(&mut k, 1);
            path_key_parts(f.as_str(), &mut k);
        },
    }
    match d.line {
        None => crate::sort::push_num(&mut k, 0),
        Some(l) => {
            crate::sort::push_num(&mut k, 1);
            crate::sort::push_num(&mut k, l as u64);
        },
    }
    assert(key_view(k) =~= diag_key(d@));
    k
}

/// The findings in report order: stable by (warning?, file, line).
pub open spec fn ordered_diags(v: Seq<DiagnosticV>) -> Seq<DiagnosticV> {
    let keys = v.map_values(|d: DiagnosticV| diag_key(d));
    crate::sort::sorted_positions(keys, v.len()).map_values(|p: usize| v[p as int])
}

/// Sort findings for the report: errors before warnings, then by file, then
/// by line; the order is otherwise kept.
pub fn order(diags: &mut Vec<Diagnostic>)
    ensures
        diags_view(final(diags)@) == ordered_diags(diags_view(old(diags)@)),
{
    let ghost dv = diags_view(diags@);
    let mut keys: Vec<SortKey> = Vec::new();
    let mut i: usize = 0;
    while i < diags.len()
        invariant
            i <= diags.len(),
            dv == diags_view(diags@),
            keys@.len() == i,
            forall|j: int| 0 <= j < i ==> key_view(#[trigger] keys@[j]) == diag_key(dv[j]),
        decreases diags.len() - i,
    {
        keys.push(diag_sort_key(&diags[i]));
        i = i + 1;
    }
    let order = crate::sort::sort_indices(&keys);
    proof {
        assert(keys_view(keys@) =~= dv.map_values(|d: DiagnosticV| diag_key(d)));
    }
    let mut out: Vec<Diagnostic> = Vec::new();
    let mut j: usize = 0;
    while j < order.len()
        invariant
            j <= order.len(),
            dv == diags_view(diags@),
            crate::sort::is_permutation_of_range(order@, dv.len() as int),
            diags_view(out@) == order@.take(j as int).map_values(|p: usize| dv[p as int]),
        decreases order.len() - j,
    {
        out.push(diags[order[j]].duplicate());
        proof {
            assert(diags_view(out@) =~= diags_view(out@.drop_last()).push(out@.last()@));
            assert(order@.take(j + 1).map_values(|p: usize| dv[p as int]) =~= order@.take(j as int).map_values(
                |p: usize| dv[p as int],
            ).push(dv[order@[j as int] as int]));
        }
        j = j + 1;
    }
    proof {
        assert(order@.take(order@.len() as int) =~= order@);
    }
    *diags = out;
}


// ───────────────────────────── schema checks ─────────────────────────────

pub open spec fn missing_description_message() -> Seq<char> {
    "every relation must state its reading direction (\"A rel B means…\") — direction confusion corrupts silently"@
}

pub open spec fn bad_propagation_message(p: crate::model::Propagation) -> Seq<char> {
    "symmetric relations have no direction: propagation must be `both` or `none`, not `"@ + crate::model::propagation_name(p)
        + "`"@
}

/// An error about relation `name` in `schema.yaml`.
pub open spec fn schema_diag(code: Seq<char>, name: Seq<char>, message: Seq<char>) -> DiagnosticV {
    DiagnosticV {
        severity: Severity::Error,
        code,
        file: Some("schema.yaml"@),
        line: None,
        entity: None,
        path: Some("relations."@ + name),
        message,
        suggestion: None,
    }
}

/// A relation type lacks a description, or has a blank one.
pub open spec fn lacks_description(d: crate::model::RelationDeclV) -> bool {
    match d.description {
        None => true,
        Some(t) => crate::text::is_blank(t),
    }
}

/// A symmetric relation type propagates one way only.
pub open spec fn one_way_symmetric(d: crate::model::RelationDeclV) -> bool {
    d.symmetric && !(d.propagation == crate::model::Propagation::Both || d.propagation
        == crate::model::Propagation::Neither)
}

/// The schema's findings over its first `k` relation types.
pub open spec fn schema_diags_upto(rels: Seq<(Seq<char>, crate::model::RelationDeclV)>, k: nat) -> Seq<DiagnosticV>
    decreases k,
{
    if k == 0 {
        seq![]
    } else {
        let (name, d) = rels[k - 1];
        let a = if lacks_description(d) {
            seq![schema_diag("missing-relation-description"@, name, missing_description_message())]
        } else {
            seq![]
        };
        let b = if one_way_symmetric(d) {
            seq![schema_diag("bad-propagation"@, name, bad_propagation_message(d.propagation))]
        } else {
            seq![]
        };
        schema_diags_upto(rels, (k - 1) as nat) + a + b
    }
}

fn schema_error(code: &'static str, name: &str, message: String) -> (r: Diagnostic)
    ensures
        r@ == schema_diag(code@, name@, message@),
{
    Diagnostic {
        severity: Severity::Error,
        code,
        file: Some(crate::text::owned("schema.yaml")),
        line: None,
        entity: None,
        path: Some(crate::text::concat("relations.", name)),
        message,
        suggestion: None,
    }
}

/// Every relation type must say how it reads, and a symmetric one cannot
/// propagate one way only.
pub fn schema_checks(schema: &crate::model::Schema) -> (r: Vec<Diagnostic>)
    ensures
        diags_view(r@) == schema_diags_upto(schema@.relations, schema@.relations.len()),
{
    let ghost rels = schema@.relations;
    let mut out: Vec<Diagnostic> = Vec::new();
    let mut i: usize = 0;
    while i < schema.relations.len()
        invariant
            i <= schema.relations.len(),
            rels == schema@.relations,
            diags_view(out@) == schema_diags_upto(rels, i as nat),
        decreases schema.relations.len() - i,
    {
        let name = schema.relations[i].0.as_str();
        let decl = &schema.relations[i].1;
        let ghost before = diags_view(out@);
        proof {
            assert(rels[i as int] == (name@, decl@));
        }
        let missing = match &decl.description {
            None => true,
            Some(t) => crate::text::blank(t.as_str()),
        };
        if missing {
            out.push(schema_error("missing-relation-description", name, crate::text::owned(
                "every relation must state its reading direction (\"A rel B means…\") — direction confusion corrupts silently",
            )));
        }
        let ghost mid = diags_view(out@);
        let one_way = decl.symmetric && !(match decl.propagation {
            crate::model::Propagation::Both => true,
            crate::model::Propagation::Neither => true,
            _ => false,
        });
        if one_way {
            out.push(schema_error("bad-propagation", name, crate::text::concat3(
                "symmetric relations have no direction: propagation must be `both` or `none`, not `",
                decl.propagation.as_str(),
                "`",
            )));
        }
        proof {
            assert(diags_view(out@) =~= schema_diags_upto(rels, (i + 1) as nat)) by {
                assert(mid =~= before + (if lacks_description(decl@) {
                    seq![schema_diag("missing-relation-description"@, name@, missing_description_message())]
                } else {
                    seq![]
                }));
            }
        }
        i = i + 1;
    }
    out
}

// ───────────────────────────── orphans ─────────────────────────────

/// A resolved edge: source, relation type, target.
pub type EdgeTriple = (EntityRef, String, EntityRef);

pub open spec fn triple_view(t: EdgeTriple) -> (RefV, Seq<char>, RefV) {
    (t.0@, t.1@, t.2@)
}

pub open spec fn triples_view(v: Seq<EdgeTriple>) -> Seq<(RefV, Seq<char>, RefV)> {
    v.map_values(|t: EdgeTriple| triple_view(t))
}

/// The refs at either end of some edge.
pub open spec fn edge_ends(edges: Seq<(RefV, Seq<char>, RefV)>) -> Seq<RefV> {
    edges.map_values(|t: (RefV, Seq<char>, RefV)| t.0) + edges.map_values(|t: (RefV, Seq<char>, RefV)| t.2)
}

pub open spec fn entity_diag(e: Entity, severity: Severity, code: Seq<char>, line: Option<usize>, path: Option<Seq<char>>, message: Seq<char>, suggestion: Option<Seq<char>>) -> DiagnosticV {
    DiagnosticV {
        severity,
        code,
        file: Some(e.file@),
        line,
        entity: Some(canonical(e.eref@)),
        path,
        message,
        suggestion,
    }
}

pub open spec fn orphan_message() -> Seq<char> {
    "no edges in either direction — dead weight until something relates to it"@
}

/// The orphan warnings for the first `k` entities.
pub open spec fn orphan_diags_upto(es: Seq<Entity>, edges: Seq<(RefV, Seq<char>, RefV)>, k: nat) -> Seq<DiagnosticV>
    decreases k,
{
    if k == 0 {
        seq![]
    } else {
        let before = orphan_diags_upto(es, edges, (k - 1) as nat);
        let e = es[k - 1];
        if edge_ends(edges).contains(e.eref@) {
            before
        } else {
            before.push(entity_diag(e, Severity::Warning, "orphan"@, None, None, orphan_message(), None))
        }
    }
}

/// A ref is among the edge ends exactly when it is the source or the
/// target of some edge.
proof fn lemma_edge_ends_contains(edges: Seq<(RefV, Seq<char>, RefV)>, r: RefV)
    ensures
        edge_ends(edges).contains(r) <==> exists|q: int|
            0 <= q < edges.len() && (#[trigger] edges[q].0 == r || edges[q].2 == r),
{
    let ends = edge_ends(edges);
    let n = edges.len();
    assert(ends.len() == 2 * n);
    assert forall|q: int| 0 <= q < n implies ends[q] == edges[q].0 && ends[n + q] == edges[q].2 by {}
    if ends.contains(r) {
        let q = choose|q: int| 0 <= q < ends.len() && ends[q] == r;
        if q < n {
            assert(edges[q].0 == r);
        } else {
            assert(ends[n + (q - n)] == edges[q - n].2);
            assert(edges[q - n].2 == r);
        }
    }
    if exists|q: int| 0 <= q < n && (#[trigger] edges[q].0 == r || edges[q].2 == r) {
        let q = choose|q: int| 0 <= q < n && (#[trigger] edges[q].0 == r || edges[q].2 == r);
        if edges[q].0 == r {
            assert(ends[q] == r);
        } else {
            assert(ends[n + q] == r);
        }
    }
}

/// No edge has `r` as its source or as its target.
#[verifier::opaque]
pub open spec fn no_edge_touches(edges: Seq<(RefV, Seq<char>, RefV)>, r: RefV) -> bool {
    forall|q: int| 0 <= q < edges.len() ==> #[trigger] edges[q].0 != r && edges[q].2 != r
}

proof fn lemma_no_edge_touches(edges: Seq<(RefV, Seq<char>, RefV)>, r: RefV)
    ensures
        no_edge_touches(edges, r) <==> !edge_ends(edges).contains(r),
{
    reveal(no_edge_touches);
    lemma_edge_ends_contains(edges, r);
    if !no_edge_touches(edges, r) {
        let q = choose|q: int| 0 <= q < edges.len() && !(#[trigger] edges[q].0 != r && edges[q].2 != r);
        assert(edges[q].0 == r || edges[q].2 == r);
    }
}

/// Each orphan warning names an entity that is neither the source nor the
/// target of any edge, with that entity's file, the `orphan` code and
/// warning severity. So the target of an edge is never reported as an
/// orphan.
pub proof fn lemma_orphans_are_untouched(es: Seq<Entity>, edges: Seq<(RefV, Seq<char>, RefV)>, k: nat)
    requires
        k <= es.len(),
    ensures
        forall|j: int|
            0 <= j < orphan_diags_upto(es, edges, k).len() ==> exists|i: int|
                #![trigger es[i]]
                0 <= i < k && no_edge_touches(edges, es[i].eref@) && {
                    let d = #[trigger] orphan_diags_upto(es, edges, k)[j];
                    &&& d.entity == Some(canonical(es[i].eref@))
                    &&& d.file == Some(es[i].file@)
                    &&& d.code == "orphan"@
                    &&& d.severity == Severity::Warning
                },
    decreases k,
{
    if k > 0 {
        lemma_orphans_are_untouched(es, edges, (k - 1) as nat);
        let before = orphan_diags_upto(es, edges, (k - 1) as nat);
        let now = orphan_diags_upto(es, edges, k);
        let e = es[k - 1];
        lemma_no_edge_touches(edges, e.eref@);
        assert forall|j: int| 0 <= j < now.len() implies exists|i: int|
            #![trigger es[i]]
            0 <= i < k && no_edge_touches(edges, es[i].eref@) && {
                let d = #[trigger] now[j];
                &&& d.entity == Some(canonical(es[i].eref@))
                &&& d.file == Some(es[i].file@)
                &&& d.code == "orphan"@
                &&& d.severity == Severity::Warning
            } by {
            if j < before.len() {
                assert(now[j] == before[j]);
            } else {
                assert(now[j] == entity_diag(e, Severity::Warning, "orphan"@, None, None, orphan_message(), None));
                assert(es[k - 1] == e);
            }
        }
    }
}

/// Every entity that is neither the source nor the target of any edge gets
/// an orphan warning naming it.
pub proof fn lemma_untouched_are_orphans(es: Seq<Entity>, edges: Seq<(RefV, Seq<char>, RefV)>, k: nat)
    requires
        k <= es.len(),
    ensures
        forall|i: int|
            0 <= i < k && no_edge_touches(edges, (#[trigger] es[i]).eref@) ==> exists|j: int|
                0 <= j < orphan_diags_upto(es, edges, k).len() && (#[trigger] orphan_diags_upto(es, edges, k)[j]).entity
                    == Some(canonical(es[i].eref@)) && orphan_diags_upto(es, edges, k)[j].code == "orphan"@,
    decreases k,
{
    if k > 0 {
        lemma_untouched_are_orphans(es, edges, (k - 1) as nat);
        let before = orphan_diags_upto(es, edges, (k - 1) as nat);
        let now = orphan_diags_upto(es, edges, k);
        let e = es[k - 1];
        lemma_no_edge_touches(edges, e.eref@);
        assert forall|i: int| 0 <= i < k && no_edge_touches(edges, (#[trigger] es[i]).eref@) implies exists|j: int|
            0 <= j < now.len() && (#[trigger] now[j]).entity == Some(canonical(es[i].eref@)) && now[j].code
                == "orphan"@ by {
            if i < k - 1 {
                let j = choose|j: int|
                    0 <= j < before.len() && (#[trigger] before[j]).entity == Some(canonical(es[i].eref@))
                        && before[j].code == "orphan"@;
                assert(now[j] == before[j]);
            } else {
                assert(now[now.len() - 1].entity == Some(canonical(es[i].eref@)));
            }
        }
    }
}

fn touches(edges: &Vec<EdgeTriple>, r: &EntityRef) -> (b: bool)
    ensures
        b == edge_ends(triples_view(edges@)).contains(r@),
{
    let ghost ev = triples_view(edges@);
    let ghost ends = edge_ends(ev);
    let mut j: usize = 0;
    while j < edges.len()
        invariant
            j <= edges.len(),
            ev == triples_view(edges@),
            ends == edge_ends(ev),
            forall|q: int| 0 <= q < j ==> ev[q].0 != r@ && ev[q].2 != r@,
        decreases edges.len() - j,
    {
        proof {
            assert(ev[j as int] == triple_view(edges@[j as int]));
        }
        if edges[j].0.same(r) || edges[j].2.same(r) {
            proof {
                if ev[j as int].0 == r@ {
                    assert(ends[j as int] == r@);
                } else {
                    assert(ends[ev.len() + j] == r@);
                }
            }
            return true;
        }
        j = j + 1;
    }
    proof {
        if ends.contains(r@) {
            let q = choose|q: int| 0 <= q < ends.len() && ends[q] == r@;
            if q < ev.len() {
                assert(ends[q] == ev[q].0);
            } else {
                assert(ends[q] == ev[q - ev.len()].2);
            }
        }
    }
    false
}

/// Entities with no edge in either direction.
pub fn orphans(entities: &Vec<Entity>, edges: &Vec<EdgeTriple>) -> (r: Vec<Diagnostic>)
    ensures
        diags_view(r@) == orphan_diags_upto(entities@, triples_view(edges@), entities@.len() as nat),
{
    let mut out: Vec<Diagnostic> = Vec::new();
    let mut i: usize = 0;
    while i < entities.len()
        invariant
            i <= entities.len(),
            diags_view(out@) == orphan_diags_upto(entities@, triples_view(edges@), i as nat),
        decreases entities.len() - i,
    {
        let e = &entities[i];
        if !touches(edges, &e.eref) {
            out.push(
                Diagnostic {
                    severity: Severity::Warning,
                    code: "orphan",
                    file: Some(e.file.clone()),
                    line: None,
                    entity: Some(e.eref.to_string()),
                    path: None,
                    message: crate::text::owned("no edges in either direction — dead weight until something relates to it"),
                    suggestion: None,
                },
            );
            proof {
                assert(diags_view(out@) =~= diags_view(out@.drop_last()).push(out@.last()@));
            }
        }
        i = i + 1;
    }
    out
}

// ───────────────────────────── anchors ─────────────────────────────

/// Does `globset::Glob::new` accept the pattern?
pub uninterp spec fn glob_accepts(p: Seq<char>) -> bool;

/// What matching `path` against the set of the one pattern `p` gives:
/// `Some(matched)`, or `None` where the set cannot be built.
pub uninterp spec fn glob_match_result(p: Seq<char>, path: Seq<char>) -> Option<bool>;

/// `globset::Glob::new(p).is_ok()`: whether the pattern parses. The glob
/// syntax is not restated here.
#[verifier::external_body]
pub(crate) fn glob_parses(p: &str) -> (r: bool)
    ensures
        r == glob_accepts(p@),
{
    globset::Glob::new(p).is_ok()
}

/// Builds the `globset::GlobSet` of the one pattern `p` and asks
/// `GlobSet::is_match` about `path`; `None` where the pattern does not parse
/// or the set cannot be built. The matching rules are not restated here.
#[verifier::external_body]
pub(crate) fn glob_matches(p: &str, path: &str) -> (r: Option<bool>)
    ensures
        r == glob_match_result(p@, path@),
{
    match globset::Glob::new(p) {
        Ok(g) => {
            let mut b = globset::GlobSetBuilder::new();
            b.add(g);
            match b.build() {
                Ok(set) => Some(set.is_match(path)),
                Err(_) => None,
            }
        },
        Err(_) => None,
    }
}

/// Some file matches the anchor `glob`.
pub open spec fn anchor_hits(glob: Seq<char>, files: Seq<Seq<char>>) -> bool {
    exists|i: int| 0 <= i < files.len() && glob_match_result(glob, #[trigger] files[i]) == Some(true)
}

pub open spec fn bad_glob_message(glob: Seq<char>) -> Seq<char> {
    "`"@ + glob + "` is not a valid glob"@
}

pub open spec fn dead_anchor_message(glob: Seq<char>, root: Seq<char>) -> Seq<char> {
    "`"@ + glob + "` matches nothing under "@ + root + " — a renamed file degrades silently to \"never stale\""@
}

pub open spec fn opt_line(l: Option<int>) -> Option<usize> {
    match l {
        Some(k) => Some(k as usize),
        None => None,
    }
}

/// The findings for the first `k` anchors of entity `e`.
pub open spec fn anchor_diags_of(e: Entity, files: Seq<Seq<char>>, root: Seq<char>, k: nat) -> Seq<DiagnosticV>
    decreases k,
{
    if k == 0 {
        seq![]
    } else {
        let before = anchor_diags_of(e, files, root, (k - 1) as nat);
        let glob = e.fm.source@[k - 1]@;
        let line = opt_line(crate::model::line_of_text(e.raw@, glob));
        if !glob_accepts(glob) {
            before.push(entity_diag(e, Severity::Error, "bad-glob"@, line, Some("source"@), bad_glob_message(glob), None))
        } else if !anchor_hits(glob, files) {
            before.push(entity_diag(e, Severity::Warning, "dead-anchor"@, line, Some("source"@), dead_anchor_message(glob, root), None))
        } else {
            before
        }
    }
}

/// The anchor findings for the first `k` entities.
pub open spec fn anchor_diags_upto(es: Seq<Entity>, files: Seq<Seq<char>>, root: Seq<char>, k: nat) -> Seq<DiagnosticV>
    decreases k,
{
    if k == 0 {
        seq![]
    } else {
        anchor_diags_upto(es, files, root, (k - 1) as nat) + anchor_diags_of(es[k - 1], files, root, es[k - 1].fm.source@.len() as nat)
    }
}

/// Does any entity anchor itself to source files?
pub fn has_anchors(entities: &Vec<Entity>) -> (r: bool)
    ensures
        r == exists|i: int| 0 <= i < entities@.len() && (#[trigger] entities@[i]).fm.source@.len() > 0,
{
    let mut i: usize = 0;
    while i < entities.len()
        invariant
            i <= entities.len(),
            forall|j: int| 0 <= j < i ==> (#[trigger] entities@[j]).fm.source@.len() == 0,
        decreases entities.len() - i,
    {
        if entities[i].fm.source.len() > 0 {
            return true;
        }
        i = i + 1;
    }
    false
}

fn any_file_matches(glob: &str, files: &Vec<String>) -> (r: bool)
    ensures
        r == anchor_hits(glob@, strs(files@)),
{
    let mut i: usize = 0;
    while i < files.len()
        invariant
            i <= files.len(),
            forall|j: int| 0 <= j < i ==> glob_match_result(glob@, #[trigger] strs(files@)[j]) != Some(true),
        decreases files.len() - i,
    {
        proof {
            assert(strs(files@)[i as int] == files@[i as int]@);
        }
        match glob_matches(glob, files[i].as_str()) {
            Some(true) => {
                return true;
            },
            _ => {},
        }
        i = i + 1;
    }
    false
}

/// Source anchors that do not parse as globs (errors) or match no file of
/// the project (warnings: a renamed file would otherwise go unnoticed).
/// `files` are the project's files, relative to `root`, `/`-separated.
pub fn anchor_checks(entities: &Vec<Entity>, files: &Vec<String>, root: &str) -> (r: Vec<Diagnostic>)
    ensures
        diags_view(r@) == anchor_diags_upto(entities@, strs(files@), root@, entities@.len() as nat),
{
    let mut out: Vec<Diagnostic> = Vec::new();
    let mut i: usize = 0;
    while i < entities.len()
        invariant
            i <= entities.len(),
            diags_view(out@) == anchor_diags_upto(entities@, strs(files@), root@, i as nat),
        decreases entities.len() - i,
    {
        let e = &entities[i];
        let ghost base = diags_view(out@);
        let mut k: usize = 0;
        while k < e.fm.source.len()
            invariant
                k <= e.fm.source.len(),
                diags_view(out@) == base + anchor_diags_of(*e, strs(files@), root@, k as nat),
            decreases e.fm.source.len() - k,
        {
            let glob = e.fm.source[k].as_str();
            let line = e.line_of(glob);
            let ghost prev = diags_view(out@);
            let ghost fv = strs(files@);
            proof {
                assert(opt_line(crate::model::line_of_text(e.raw@, glob@)) == line);
                assert(e.fm.source@[k as int]@ == glob@);
                assert(((k + 1) as nat - 1) as int == k as int);
            }
            if !glob_parses(glob) {
                out.push(
                    Diagnostic {
                        severity: Severity::Error,
                        code: "bad-glob",
                        file: Some(e.file.clone()),
                        line,
                        entity: Some(e.eref.to_string()),
                        path: Some(crate::text::owned("source")),
                        message: crate::text::concat3("`", glob, "` is not a valid glob"),
                        suggestion: None,
                    },
                );
                proof {
                    assert(diags_view(out@) =~= diags_view(out@.drop_last()).push(out@.last()@));
                }
            } else if !any_file_matches(glob, files) {
                let mut m = crate::text::concat3("`", glob, "` matches nothing under ");
                m.append(root);
                m.append(" — a renamed file degrades silently to \"never stale\"");
                out.push(
                    Diagnostic {
                        severity: Severity::Warning,
                        code: "dead-anchor",
                        file: Some(e.file.clone()),
                        line,
                        entity: Some(e.eref.to_string()),
                        path: Some(crate::text::owned("source")),
                        message: m,
                        suggestion: None,
                    },
                );
                proof {
                    assert(diags_view(out@) =~= diags_view(out@.drop_last()).push(out@.last()@));
                    assert(m@ =~= dead_anchor_message(glob@, root@));
                }
            }
            proof {
                let before = anchor_diags_of(*e, fv, root@, k as nat);
                let after = anchor_diags_of(*e, fv, root@, (k + 1) as nat);
                if !glob_accepts(glob@) || !anchor_hits(glob@, fv) {
                    assert(after == before.push(diags_view(out@).last()));
                    assert(diags_view(out@) =~= prev.push(diags_view(out@).last()));
                    assert(base + after =~= (base + before).push(diags_view(out@).last()));
                } else {
                    assert(after == before);
                }
            }
            k = k + 1;
        }
        i = i + 1;
    }
    out
}


// ───────────────────────────── relation entries ─────────────────────────────

/// What `format!("{:?}", v)` makes of a list of strings.
pub uninterp spec fn debug_text(v: Seq<Seq<char>>) -> Seq<char>;

/// `format!("{:?}", v)` on a list of strings: the `Debug` rendering, whose
/// escaping rules are not restated here.
#[verifier::external_body]
pub(crate) fn debug_list(v: &Vec<String>) -> (r: String)
    ensures
        r@ == debug_text(strs(v@)),
{
    format!("{:?}", v)
}

pub type Key3 = (RefV, Seq<char>, RefV);

pub type SymKey = (Seq<char>, RefV, RefV);

/// The state of the pass over relation entries: edge keys seen, the last
/// entity that stated each symmetric pair, the edges kept, and findings.
pub struct Pass {
    pub seen: Seq<Key3>,
    pub sym: Seq<(SymKey, RefV)>,
    pub edges: Seq<Key3>,
    pub diags: Seq<DiagnosticV>,
}

/// The entity that last stated the symmetric pair `k`.
pub open spec fn sym_last(sym: Seq<(SymKey, RefV)>, k: SymKey) -> Option<RefV>
    decreases sym.len(),
{
    if sym.len() == 0 {
        None
    } else if sym.last().0 == k {
        Some(sym.last().1)
    } else {
        sym_last(sym.drop_last(), k)
    }
}

/// The pair of refs, smaller first.
pub open spec fn ordered_refs(a: RefV, b: RefV) -> (RefV, RefV) {
    if !key_lt(ref_key(b), ref_key(a)) {
        (a, b)
    } else {
        (b, a)
    }
}

pub open spec fn rel_path(rel: Seq<char>) -> Seq<char> {
    "relations."@ + rel
}

pub open spec fn rel_target_path(rel: Seq<char>, t: RefV) -> Seq<char> {
    "relations."@ + rel + " → "@ + canonical(t)
}

pub open spec fn from_message(rel: Seq<char>, from: Seq<Seq<char>>, kind: Seq<char>) -> Seq<char> {
    "`"@ + rel + "` edges start from "@ + debug_text(from) + ", not from kind `"@ + kind + "`"@
}

pub open spec fn to_message(rel: Seq<char>, to: Seq<Seq<char>>, t: RefV) -> Seq<char> {
    "`"@ + rel + "` edges point at "@ + debug_text(to) + ", not at kind `"@ + t.0 + "` ("@ + canonical(t) + ")"@
}

pub open spec fn symmetric_twice_message(rel: Seq<char>, first: RefV) -> Seq<char> {
    "`"@ + rel + "` is symmetric and already declared on "@ + canonical(first) + "; one side suffices"@
}

pub open spec fn suggest_ref(s: Option<Seq<char>>) -> Option<Seq<char>> {
    match s {
        Some(r) => Some("did you mean "@ + r + "?"@),
        None => None,
    }
}

/// One relation entry `entry` of type `rel` (declared as `decl`) on entity
/// `e`: a ref that does not parse, resolves to nothing, joins kinds the
/// declaration excludes, repeats an edge, or restates a symmetric pair is
/// reported; an edge that is neither a repeat nor a restatement is kept.
pub open spec fn entry_step(
    refs: Seq<RefV>,
    e: Entity,
    rel: Seq<char>,
    decl: crate::model::RelationDeclV,
    entry: crate::model::RelEntryV,
    st: Pass,
) -> Pass {
    let raw = entry.target_text();
    let line = opt_line(crate::model::line_of_text(e.raw@, raw));
    let rel_line = opt_line(crate::model::line_of_text(e.raw@, rel));
    match crate::model::parse_ref(raw) {
        Err(msg) => Pass {
            diags: st.diags.push(entity_diag(e, Severity::Error, "bad-ref"@, line, Some(rel_path(rel)), msg, None)),
            ..st
        },
        Ok(t) => if !refs.contains(t) {
            Pass {
                diags: st.diags.push(
                    entity_diag(
                        e,
                        Severity::Error,
                        "dangling-ref"@,
                        line,
                        Some(rel_target_path(rel, t)),
                        "no such entity"@,
                        suggest_ref(did_you_mean_spec(t, refs)),
                    ),
                ),
                ..st
            }
        } else {
            let d1 = match decl.from {
                Some(from) if !from.contains(e.eref.kind@) => st.diags.push(
                    entity_diag(e, Severity::Error, "bad-endpoint"@, rel_line, Some(rel_path(rel)), from_message(rel, from, e.eref.kind@), None),
                ),
                _ => st.diags,
            };
            let d2 = match decl.to {
                Some(to) if !to.contains(t.0) => d1.push(
                    entity_diag(e, Severity::Error, "bad-endpoint"@, rel_line, Some(rel_path(rel)), to_message(rel, to, t), None),
                ),
                _ => d1,
            };
            let key = (e.eref@, rel, t);
            if st.seen.contains(key) {
                Pass {
                    diags: d2.push(
                        entity_diag(
                            e,
                            Severity::Warning,
                            "duplicate-edge"@,
                            line,
                            Some(rel_target_path(rel, t)),
                            "same edge stated twice; deduplicated"@,
                            None,
                        ),
                    ),
                    seen: st.seen,
                    sym: st.sym,
                    edges: st.edges,
                }
            } else if decl.symmetric {
                let (a, b) = ordered_refs(e.eref@, t);
                let prev = sym_last(st.sym, (rel, a, b));
                let sym = st.sym.push(((rel, a, b), e.eref@));
                match prev {
                    Some(first) if first != e.eref@ => Pass {
                        seen: st.seen.push(key),
                        sym,
                        edges: st.edges,
                        diags: d2.push(
                            entity_diag(
                                e,
                                Severity::Warning,
                                "symmetric-declared-twice"@,
                                line,
                                Some(rel_target_path(rel, t)),
                                symmetric_twice_message(rel, first),
                                None,
                            ),
                        ),
                    },
                    _ => Pass { seen: st.seen.push(key), sym, edges: st.edges.push(key), diags: d2 },
                }
            } else {
                Pass { seen: st.seen.push(key), sym: st.sym, edges: st.edges.push(key), diags: d2 }
            }
        },
    }
}

pub type SymEntry = ((String, EntityRef, EntityRef), EntityRef);

pub open spec fn sym_view(v: Seq<SymEntry>) -> Seq<(SymKey, RefV)> {
    v.map_values(|p: SymEntry| (((p.0).0@, (p.0).1@, (p.0).2@), p.1@))
}

/// The exec state of the pass.
pub struct PassState {
    pub seen: Vec<EdgeTriple>,
    pub sym: Vec<SymEntry>,
    pub edges: Vec<EdgeTriple>,
    pub diags: Vec<Diagnostic>,
}

pub open spec fn pass_view(s: PassState) -> Pass {
    Pass {
        seen: triples_view(s.seen@),
        sym: sym_view(s.sym@),
        edges: triples_view(s.edges@),
        diags: diags_view(s.diags@),
    }
}

fn triple_of(a: &EntityRef, rel: &str, b: &EntityRef) -> (r: EdgeTriple)
    ensures
        triple_view(r) == (a@, rel@, b@),
{
    (a.clone(), crate::text::owned(rel), b.clone())
}

fn seen_has(seen: &Vec<EdgeTriple>, a: &EntityRef, rel: &str, b: &EntityRef) -> (r: bool)
    ensures
        r == triples_view(seen@).contains((a@, rel@, b@)),
{
    let ghost sv = triples_view(seen@);
    let mut i: usize = 0;
    while i < seen.len()
        invariant
            i <= seen.len(),
            sv == triples_view(seen@),
            forall|j: int| 0 <= j < i ==> sv[j] != (a@, rel@, b@),
        decreases seen.len() - i,
    {
        proof {
            assert(sv[i as int] == triple_view(seen@[i as int]));
        }
        if seen[i].0.same(a) && crate::text::str_eq(seen[i].1.as_str(), rel) && seen[i].2.same(b) {
            return true;
        }
        i = i + 1;
    }
    false
}

fn sym_find(sym: &Vec<SymEntry>, rel: &str, a: &EntityRef, b: &EntityRef) -> (r: Option<EntityRef>)
    ensures
        match r {
            Some(x) => sym_last(sym_view(sym@), (rel@, a@, b@)) == Some(x@),
            None => sym_last(sym_view(sym@), (rel@, a@, b@)) is None,
        },
{
    let ghost k = (rel@, a@, b@);
    let mut i: usize = sym.len();
    assert(sym@.take(sym@.len() as int) =~= sym@);
    while i > 0
        invariant
            i <= sym.len(),
            k == (rel@, a@, b@),
            sym_last(sym_view(sym@), k) == sym_last(sym_view(sym@.take(i as int)), k),
        decreases i,
    {
        let ghost pre = sym_view(sym@.take(i as int));
        proof {
            assert(pre.drop_last() =~= sym_view(sym@.take(i - 1)));
            assert(pre.last() == (((sym@[i - 1].0).0@, (sym@[i - 1].0).1@, (sym@[i - 1].0).2@), sym@[i - 1].1@));
        }
        let entry = &sym[i - 1];
        if crate::text::str_eq((entry.0).0.as_str(), rel) && (entry.0).1.same(a) && (entry.0).2.same(b) {
            proof {
                assert(pre.last().0 == k);
            }
            return Some(entry.1.clone());
        }
        proof {
            assert(pre.last().0 != k);
        }
        i = i - 1;
    }
    None
}

fn entity_error(
    e: &Entity,
    severity: Severity,
    code: &'static str,
    line: Option<usize>,
    path: Option<String>,
    message: String,
    suggestion: Option<String>,
) -> (r: Diagnostic)
    ensures
        r@ == entity_diag(*e, severity, code@, line, crate::diag::opt_view(path), message@, crate::diag::opt_view(suggestion)),
{
    Diagnostic { severity, code, file: Some(e.file.clone()), line, entity: Some(e.eref.to_string()), path, message, suggestion }
}

fn target_path(rel: &str, t: &EntityRef) -> (r: String)
    ensures
        r@ == rel_target_path(rel@, t@),
{
    let mut p = crate::text::concat("relations.", rel);
    p.append(" → ");
    p.append(t.to_string().as_str());
    p
}

/// Process one relation entry.
#[verifier::rlimit(80)]
fn check_entry(
    refs: &Vec<EntityRef>,
    e: &Entity,
    rel: &str,
    decl: &crate::model::RelationDecl,
    entry: &crate::model::RelEntry,
    st: &mut PassState,
)
    ensures
        pass_view(*final(st)) == entry_step(refs_view(refs@), *e, rel@, decl@, entry@, pass_view(*old(st))),
{
    let ghost st0 = pass_view(*st);
    let raw = entry.target();
    let line = e.line_of(raw);
    proof {
        assert(opt_line(crate::model::line_of_text(e.raw@, raw@)) == line);
    }
    let target = match EntityRef::parse(raw) {
        Err(msg) => {
            st.diags.push(entity_error(e, Severity::Error, "bad-ref", line, Some(crate::text::concat("relations.", rel)), msg, None));
            proof {
                assert(diags_view(st.diags@) =~= st0.diags.push(st.diags@.last()@));
            }
            return;
        },
        Ok(t) => t,
    };
    let mut known = false;
    let mut i: usize = 0;
    while i < refs.len()
        invariant
            i <= refs.len(),
            known == refs_view(refs@).take(i as int).contains(target@),
        decreases refs.len() - i,
    {
        let ghost pre = refs_view(refs@).take(i as int);
        proof {
            assert(refs_view(refs@).take(i + 1) =~= pre.push(refs@[i as int]@));
        }
        let same = refs[i].same(&target);
        proof {
            let post = pre.push(refs@[i as int]@);
            if same {
                assert(post[i as int] == target@);
            } else if known {
                let j = choose|j: int| 0 <= j < pre.len() && pre[j] == target@;
                assert(post[j] == target@);
            } else {
                assert forall|j: int| 0 <= j < post.len() implies post[j] != target@ by {
                    if j < pre.len() {
                        assert(post[j] == pre[j]);
                    }
                }
            }
        }
        if same {
            known = true;
        }
        i = i + 1;
    }
    proof {
        assert(refs_view(refs@).take(refs@.len() as int) =~= refs_view(refs@));
    }
    if !known {
        let sugg = match did_you_mean(&target, refs) {
            Some(r) => Some(crate::text::concat3("did you mean ", r.as_str(), "?")),
            None => None,
        };
        st.diags.push(entity_error(e, Severity::Error, "dangling-ref", line, Some(target_path(rel, &target)), crate::text::owned("no such entity"), sugg));
        proof {
            assert(diags_view(st.diags@) =~= st0.diags.push(st.diags@.last()@));
        }
        return;
    }
    let rel_line = e.line_of(rel);
    proof {
        assert(opt_line(crate::model::line_of_text(e.raw@, rel@)) == rel_line);
    }
    match &decl.from {
        Some(from) => {
            if !crate::model::list_contains(from, e.eref.kind.as_str()) {
                let mut m = crate::text::concat3("`", rel, "` edges start from ");
                m.append(debug_list(from).as_str());
                m.append(", not from kind `");
                m.append(e.eref.kind.as_str());
                m.append("`");
                st.diags.push(entity_error(e, Severity::Error, "bad-endpoint", rel_line, Some(crate::text::concat("relations.", rel)), m, None));
            }
        },
        None => {},
    }
    let ghost d1 = diags_view(st.diags@);
    proof {
        assert(d1 =~= match decl@.from {
            Some(from) if !from.contains(e.eref.kind@) => st0.diags.push(
                entity_diag(*e, Severity::Error, "bad-endpoint"@, rel_line, Some(rel_path(rel@)), from_message(rel@, from, e.eref.kind@), None),
            ),
            _ => st0.diags,
        });
    }
    match &decl.to {
        Some(to) => {
            if !crate::model::list_contains(to, target.kind.as_str()) {
                let mut m = crate::text::concat3("`", rel, "` edges point at ");
                m.append(debug_list(to).as_str());
                m.append(", not at kind `");
                m.append(target.kind.as_str());
                m.append("` (");
                m.append(target.to_string().as_str());
                m.append(")");
                st.diags.push(entity_error(e, Severity::Error, "bad-endpoint", rel_line, Some(crate::text::concat("relations.", rel)), m, None));
            }
        },
        None => {},
    }
    let ghost d2 = diags_view(st.diags@);
    proof {
        assert(d2 =~= match decl@.to {
            Some(to) if !to.contains(target@.0) => d1.push(
                entity_diag(*e, Severity::Error, "bad-endpoint"@, rel_line, Some(rel_path(rel@)), to_message(rel@, to, target@), None),
            ),
            _ => d1,
        });
    }
    if seen_has(&st.seen, &e.eref, rel, &target) {
        st.diags.push(entity_error(e, Severity::Warning, "duplicate-edge", line, Some(target_path(rel, &target)), crate::text::owned("same edge stated twice; deduplicated"), None));
        proof {
            assert(diags_view(st.diags@) =~= d2.push(st.diags@.last()@));
        }
        return;
    }
    st.seen.push(triple_of(&e.eref, rel, &target));
    proof {
        assert(triples_view(st.seen@) =~= st0.seen.push((e.eref@, rel@, target@)));
    }
    if decl.symmetric {
        let (a, b) = ordered(&e.eref, &target);
        let prev = sym_find(&st.sym, rel, &a, &b);
        let ghost sym0 = st.sym@;
        st.sym.push(((crate::text::owned(rel), a, b), e.eref.clone()));
        proof {
            assert(sym_view(st.sym@) =~= sym_view(sym0).push(((rel@, a@, b@), e.eref@)));
        }
        match prev {
            Some(first) => {
                if !first.same(&e.eref) {
                    let mut m = crate::text::concat3("`", rel, "` is symmetric and already declared on ");
                    m.append(first.to_string().as_str());
                    m.append("; one side suffices");
                    st.diags.push(entity_error(e, Severity::Warning, "symmetric-declared-twice", line, Some(target_path(rel, &target)), m, None));
                    proof {
                        assert(diags_view(st.diags@) =~= d2.push(st.diags@.last()@));
                    }
                    return;
                }
            },
            None => {},
        }
    }
    st.edges.push(triple_of(&e.eref, rel, &target));
    proof {
        assert(triples_view(st.edges@) =~= st0.edges.push((e.eref@, rel@, target@)));
    }
}


pub open spec fn entries_fold(
    refs: Seq<RefV>,
    e: Entity,
    rel: Seq<char>,
    decl: crate::model::RelationDeclV,
    entries: Seq<crate::model::RelEntryV>,
    k: nat,
    st: Pass,
) -> Pass
    decreases k,
{
    if k == 0 {
        st
    } else {
        entry_step(refs, e, rel, decl, entries[k - 1], entries_fold(refs, e, rel, decl, entries, (k - 1) as nat, st))
    }
}

pub open spec fn undeclared_message(rel: Seq<char>) -> Seq<char> {
    "relation type `"@ + rel + "` is not declared in schema.yaml"@
}

pub open spec fn suggest_relation(c: Option<Seq<char>>) -> Option<Seq<char>> {
    match c {
        Some(r) => Some("did you mean `"@ + r + "`? or declare it under relations:"@),
        None => None,
    }
}

pub open spec fn unknown_kind_message(kind: Seq<char>) -> Seq<char> {
    "kind `"@ + kind + "` is not declared in schema.yaml"@
}

pub open spec fn suggest_kind(c: Option<Seq<char>>) -> Option<Seq<char>> {
    match c {
        Some(k) => Some("did you mean kind `"@ + k + "`? or declare it under kinds:"@),
        None => None,
    }
}

/// The relation type `rel` of entity `e`: undeclared, it is reported and
/// its entries skipped; declared, each entry is processed.
pub open spec fn relation_step(
    schema: crate::model::Schema,
    refs: Seq<RefV>,
    e: Entity,
    rel: Seq<char>,
    entries: Seq<crate::model::RelEntryV>,
    st: Pass,
) -> Pass {
    match schema.relation_decl(rel) {
        None => Pass {
            diags: st.diags.push(
                entity_diag(
                    e,
                    Severity::Error,
                    "undeclared-relation"@,
                    opt_line(crate::model::line_of_text(e.raw@, rel)),
                    Some(rel_path(rel)),
                    undeclared_message(rel),
                    suggest_relation(closest_spec(rel, crate::model::keys_of(schema.relations@))),
                ),
            ),
            ..st
        },
        Some(d) => entries_fold(refs, e, rel, d, entries, entries.len(), st),
    }
}

pub open spec fn relations_fold(
    schema: crate::model::Schema,
    refs: Seq<RefV>,
    e: Entity,
    rels: Seq<(Seq<char>, Seq<crate::model::RelEntryV>)>,
    k: nat,
    st: Pass,
) -> Pass
    decreases k,
{
    if k == 0 {
        st
    } else {
        let (rel, entries) = rels[k - 1];
        relation_step(schema, refs, e, rel, entries, relations_fold(schema, refs, e, rels, (k - 1) as nat, st))
    }
}

/// An entity's kind must be declared.
pub open spec fn kind_step(schema: crate::model::Schema, e: Entity, st: Pass) -> Pass {
    if schema.declares_kind(e.eref.kind@) {
        st
    } else {
        Pass {
            diags: st.diags.push(
                entity_diag(
                    e,
                    Severity::Error,
                    "unknown-kind"@,
                    None,
                    None,
                    unknown_kind_message(e.eref.kind@),
                    suggest_kind(closest_spec(e.eref.kind@, crate::model::keys_of(schema.kinds@))),
                ),
            ),
            ..st
        }
    }
}

/// One entity: its kind, then its relations in order.
pub open spec fn entity_pass(schema: crate::model::Schema, refs: Seq<RefV>, e: Entity, st: Pass) -> Pass {
    let rels = crate::model::relations_view(e.fm.relations@);
    relations_fold(schema, refs, e, rels, rels.len(), kind_step(schema, e, st))
}

/// The pass over the first `k` entities.
pub open spec fn entities_pass(schema: crate::model::Schema, refs: Seq<RefV>, es: Seq<Entity>, k: nat) -> Pass
    decreases k,
{
    if k == 0 {
        Pass { seen: seq![], sym: seq![], edges: seq![], diags: seq![] }
    } else {
        entity_pass(schema, refs, es[k - 1], entities_pass(schema, refs, es, (k - 1) as nat))
    }
}

fn check_relation(
    schema: &crate::model::Schema,
    rel_names: &Vec<String>,
    refs: &Vec<EntityRef>,
    e: &Entity,
    rel: &str,
    entries: &Vec<crate::model::RelEntry>,
    st: &mut PassState,
)
    requires
        strs(rel_names@) == crate::model::keys_of(schema.relations@),
    ensures
        pass_view(*final(st)) == relation_step(*schema, refs_view(refs@), *e, rel@, crate::model::entries_view(entries@), pass_view(*old(st))),
{
    match crate::model::find_key(&schema.relations, rel) {
        None => {
            let sugg = match closest(rel, rel_names) {
                Some(r) => Some(crate::text::concat3("did you mean `", r.as_str(), "`? or declare it under relations:")),
                None => None,
            };
            let line = e.line_of(rel);
            let ghost d0 = diags_view(st.diags@);
            st.diags.push(
                entity_error(
                    e,
                    Severity::Error,
                    "undeclared-relation",
                    line,
                    Some(crate::text::concat("relations.", rel)),
                    crate::text::concat3("relation type `", rel, "` is not declared in schema.yaml"),
                    sugg,
                ),
            );
            proof {
                assert(diags_view(st.diags@) =~= d0.push(st.diags@.last()@));
                assert(opt_line(crate::model::line_of_text(e.raw@, rel@)) == line);
            }
        },
        Some(di) => {
            let decl = &schema.relations[di].1;
            let ghost ev = crate::model::entries_view(entries@);
            let ghost st0 = pass_view(*st);
            let mut k: usize = 0;
            while k < entries.len()
                invariant
                    k <= entries.len(),
                    ev == crate::model::entries_view(entries@),
                    pass_view(*st) == entries_fold(refs_view(refs@), *e, rel@, decl@, ev, k as nat, st0),
                decreases entries.len() - k,
            {
                check_entry(refs, e, rel, decl, &entries[k], st);
                k = k + 1;
            }
        },
    }
}

/// The pass over all entities: unknown kinds, undeclared relation types,
/// and every relation entry.
fn check_entities(schema: &crate::model::Schema, refs: &Vec<EntityRef>, entities: &Vec<Entity>) -> (st: PassState)
    ensures
        pass_view(st) == entities_pass(*schema, refs_view(refs@), entities@, entities@.len() as nat),
{
    let rel_names = key_names(&schema.relations);
    let kind_names = key_names(&schema.kinds);
    let mut st = PassState { seen: Vec::new(), sym: Vec::new(), edges: Vec::new(), diags: Vec::new() };
    proof {
        assert(triples_view(st.seen@) =~= Seq::<Key3>::empty());
        assert(sym_view(st.sym@) =~= Seq::<(SymKey, RefV)>::empty());
        assert(triples_view(st.edges@) =~= Seq::<Key3>::empty());
        assert(diags_view(st.diags@) =~= Seq::<DiagnosticV>::empty());
        assert(pass_view(st) == entities_pass(*schema, refs_view(refs@), entities@, 0));
    }
    let mut i: usize = 0;
    while i < entities.len()
        invariant
            i <= entities.len(),
            strs(rel_names@) == crate::model::keys_of(schema.relations@),
            strs(kind_names@) == crate::model::keys_of(schema.kinds@),
            pass_view(st) == entities_pass(*schema, refs_view(refs@), entities@, i as nat),
        decreases entities.len() - i,
    {
        let e = &entities[i];
        match crate::model::find_key(&schema.kinds, e.eref.kind.as_str()) {
            Some(_) => {},
            None => {
                let sugg = match closest(e.eref.kind.as_str(), &kind_names) {
                    Some(k) => Some(crate::text::concat3("did you mean kind `", k.as_str(), "`? or declare it under kinds:")),
                    None => None,
                };
                let ghost d0 = diags_view(st.diags@);
                st.diags.push(
                    entity_error(
                        e,
                        Severity::Error,
                        "unknown-kind",
                        None,
                        None,
                        crate::text::concat3("kind `", e.eref.kind.as_str(), "` is not declared in schema.yaml"),
                        sugg,
                    ),
                );
                proof {
                    assert(diags_view(st.diags@) =~= d0.push(st.diags@.last()@));
                }
            },
        }
        let ghost after_kind = pass_view(st);
        let ghost rels = crate::model::relations_view(e.fm.relations@);
        let mut k: usize = 0;
        while k < e.fm.relations.len()
            invariant
                k <= e.fm.relations.len(),
                strs(rel_names@) == crate::model::keys_of(schema.relations@),
                rels == crate::model::relations_view(e.fm.relations@),
                pass_view(st) == relations_fold(*schema, refs_view(refs@), *e, rels, k as nat, after_kind),
            decreases e.fm.relations.len() - k,
        {
            let pair = &e.fm.relations[k];
            proof {
                assert(rels[k as int] == (pair.0@, crate::model::entries_view(pair.1@)));
            }
            check_relation(schema, &rel_names, refs, e, pair.0.as_str(), &pair.1, &mut st);
            k = k + 1;
        }
        i = i + 1;
    }
    st
}


// ───────────────────────────── acyclic relation types ─────────────────────────────

/// `c` is a closed walk along `succ`: it returns to where it starts, each
/// step following an edge.
pub open spec fn closed_walk(succ: Seq<Seq<usize>>, c: Seq<usize>) -> bool {
    &&& c.len() >= 2
    &&& c[0] == c[c.len() - 1]
    &&& forall|i: int| 0 <= i < c.len() - 1 ==> 0 <= c[i] < succ.len() && succ[c[i] as int].contains(#[trigger] c[i + 1])
}

/// How many entities are still unvisited.
pub open spec fn unvisited(s: Seq<u8>) -> nat
    decreases s.len(),
{
    if s.len() == 0 {
        0
    } else {
        unvisited(s.drop_last()) + if s.last() == 0 {
            1nat
        } else {
            0nat
        }
    }
}

proof fn lemma_unvisited_set(s: Seq<u8>, i: int, v: u8)
    requires
        0 <= i < s.len(),
    ensures
        s[i] == 0 && v != 0 ==> unvisited(s.update(i, v)) + 1 == unvisited(s),
        s[i] != 0 && v != 0 ==> unvisited(s.update(i, v)) == unvisited(s),
    decreases s.len(),
{
    if i < s.len() - 1 {
        lemma_unvisited_set(s.drop_last(), i, v);
        assert(s.update(i, v).drop_last() =~= s.drop_last().update(i, v));
    } else {
        assert(s.update(i, v).drop_last() =~= s.drop_last());
    }
}

/// The walk `trail` follows edges, and its last entity leads to `node`.
pub open spec fn trail_ok(succ: Seq<Seq<usize>>, trail: Seq<usize>) -> bool {
    &&& forall|i: int| 0 <= i < trail.len() ==> #[trigger] trail[i] < succ.len()
    &&& forall|i: int| 0 <= i < trail.len() - 1 ==> succ[trail[i] as int].contains(#[trigger] trail[i + 1])
}

/// Before any cycle is found, the entities in progress are exactly those on the trail.
pub open spec fn gray_is_trail(state: Seq<u8>, trail: Seq<usize>) -> bool {
    forall|m: usize| (m as int) < state.len() ==> (#[trigger] state[m as int] == 1 <==> trail.contains(m))
}

pub open spec fn succ_ok(succ: Seq<Vec<usize>>, n: nat) -> bool {
    &&& succ.len() == n
    &&& forall|i: int, j: int| 0 <= i < n && 0 <= j < succ[i]@.len() ==> #[trigger] succ[i]@[j] < n
}

pub open spec fn succ_view(succ: Seq<Vec<usize>>) -> Seq<Seq<usize>> {
    succ.map_values(|v: Vec<usize>| v@)
}

/// Done entities lead only to done entities.
pub open spec fn done_closed(succ: Seq<Seq<usize>>, s: Seq<u8>) -> bool {
    forall|x: int, j: int|
        #![trigger s[x], succ[x][j]]
        0 <= x < s.len() && s[x] == 2 && 0 <= j < succ[x].len() ==> s[succ[x][j] as int] == 2
}

/// Every entity of `c` is done.
pub open spec fn all_done(s: Seq<u8>, c: Seq<usize>) -> bool {
    forall|i: int| 0 <= i < c.len() ==> s[#[trigger] c[i] as int] == 2
}

/// No closed walk runs through done entities only.
pub open spec fn done_acyclic(succ: Seq<Seq<usize>>, s: Seq<u8>) -> bool {
    forall|c: Seq<usize>| #[trigger] closed_walk(succ, c) ==> !all_done(s, c)
}

/// Every successor is an entity.
pub open spec fn succ_in_range(succ: Seq<Seq<usize>>) -> bool {
    forall|x: int, j: int| 0 <= x < succ.len() && 0 <= j < succ[x].len() ==> #[trigger] succ[x][j] < succ.len()
}

/// Every state is a colour: unvisited, in progress or done.
pub open spec fn colours(s: Seq<u8>) -> bool {
    forall|m: int| 0 <= m < s.len() ==> #[trigger] s[m] <= 2
}

/// The relation has no closed walk at all.
pub open spec fn cycle_free(succ: Seq<Seq<usize>>) -> bool {
    forall|c: Seq<usize>| !#[trigger] closed_walk(succ, c)
}

proof fn lemma_succ_in_range(succ: Seq<Vec<usize>>, n: nat)
    requires
        succ_ok(succ, n),
    ensures
        succ_in_range(succ_view(succ)),
{
    assert forall|x: int, j: int| 0 <= x < succ_view(succ).len() && 0 <= j < succ_view(succ)[x].len() implies #[trigger] succ_view(succ)[x][j] < succ_view(succ).len() by {
        assert(succ_view(succ)[x] == succ[x]@);
        assert(succ[x]@[j] < n);
    }
}

/// Along a closed walk, from a done entity on, every entity is done.
proof fn lemma_stays_done(succ: Seq<Seq<usize>>, s: Seq<u8>, c: Seq<usize>, a: int)
    requires
        done_closed(succ, s),
        s.len() == succ.len(),
        closed_walk(succ, c),
        0 <= a < c.len(),
        s[c[a] as int] == 2,
    ensures
        forall|b: int| a <= b < c.len() ==> s[#[trigger] c[b] as int] == 2,
    decreases c.len() - a,
{
    if a < c.len() - 1 {
        assert(succ[c[a] as int].contains(c[a + 1]));
        let j = choose|j: int| 0 <= j < succ[c[a] as int].len() && succ[c[a] as int][j] == c[a + 1];
        assert(s[succ[c[a] as int][j] as int] == 2);
        lemma_stays_done(succ, s, c, a + 1);
        assert forall|b: int| a <= b < c.len() implies s[#[trigger] c[b] as int] == 2 by {
            if b > a {
            }
        }
    }
}

/// Marking an unvisited entity in progress keeps what holds of the done ones.
proof fn lemma_colour_gray(succ: Seq<Seq<usize>>, s: Seq<u8>, node: int)
    requires
        s.len() == succ.len(),
        succ_in_range(succ),
        0 <= node < s.len(),
        s[node] == 0,
        done_closed(succ, s),
        done_acyclic(succ, s),
        colours(s),
    ensures
        done_closed(succ, s.update(node, 1)),
        done_acyclic(succ, s.update(node, 1)),
        colours(s.update(node, 1)),
{
    let t = s.update(node, 1);
    assert forall|x: int, j: int|
        #![trigger t[x], succ[x][j]]
        0 <= x < t.len() && t[x] == 2 && 0 <= j < succ[x].len() implies t[succ[x][j] as int] == 2 by {
        assert(s[x] == 2);
        assert(succ[x][j] < succ.len());
        assert(s[succ[x][j] as int] == 2);
    }
    assert forall|c: Seq<usize>| #[trigger] closed_walk(succ, c) implies !all_done(t, c) by {
        if all_done(t, c) {
            assert forall|i: int| 0 <= i < c.len() implies s[#[trigger] c[i] as int] == 2 by {
                let k = if i == c.len() - 1 { 0 } else { i };
                assert(succ[c[k] as int].contains(c[k + 1]));
                assert(c[k] < succ.len());
                assert(c[i] == c[k]);
                assert(t[c[i] as int] == 2);
                assert(c[i] as int != node);
                assert(s[c[i] as int] == t[c[i] as int]);
            }
            assert(all_done(s, c));
        }
    }
}

/// Marking an entity done once all its successors are done keeps the done
/// entities closed and free of closed walks.
proof fn lemma_colour_done(succ: Seq<Seq<usize>>, s: Seq<u8>, node: int)
    requires
        s.len() == succ.len(),
        succ_in_range(succ),
        0 <= node < s.len(),
        s[node] == 1,
        forall|j: int| 0 <= j < succ[node].len() ==> s[#[trigger] succ[node][j] as int] == 2,
        done_closed(succ, s),
        done_acyclic(succ, s),
        colours(s),
    ensures
        done_closed(succ, s.update(node, 2)),
        done_acyclic(succ, s.update(node, 2)),
        colours(s.update(node, 2)),
{
    let t = s.update(node, 2);
    assert forall|x: int, j: int|
        #![trigger t[x], succ[x][j]]
        0 <= x < t.len() && t[x] == 2 && 0 <= j < succ[x].len() implies t[succ[x][j] as int] == 2 by {
        assert(succ[x][j] < succ.len());
        if x == node {
            assert(s[succ[node][j] as int] == 2);
        } else {
            assert(s[x] == 2);
            assert(s[succ[x][j] as int] == 2);
        }
    }
    assert forall|c: Seq<usize>| #[trigger] closed_walk(succ, c) implies !all_done(t, c) by {
        if all_done(t, c) {
            if exists|i: int| 0 <= i < c.len() && c[i] == node {
                let i = choose|i: int| 0 <= i < c.len() && c[i] == node;
                let i0 = if i == c.len() - 1 { 0 } else { i };
                assert(c[i0] == node);
                assert(succ[c[i0] as int].contains(c[i0 + 1]));
                let j = choose|j: int| 0 <= j < succ[node].len() && succ[node][j] == c[i0 + 1];
                assert(s[succ[node][j] as int] == 2);
                lemma_stays_done(succ, s, c, i0 + 1);
                assert(s[c[c.len() - 1] as int] == 2);
                assert(s[c[0] as int] == 2);
                lemma_stays_done(succ, s, c, 0);
                assert(s[c[i0] as int] == 2);
            } else {
                assert forall|i: int| 0 <= i < c.len() implies s[#[trigger] c[i] as int] == 2 by {
                    let k = if i == c.len() - 1 { 0 } else { i };
                    assert(succ[c[k] as int].contains(c[k + 1]));
                    assert(c[k] < succ.len());
                    assert(c[i] == c[k]);
                    assert(t[c[i] as int] == 2);
                    assert(c[i] as int != node);
                    assert(s[c[i] as int] == t[c[i] as int]);
                }
                assert(all_done(s, c));
            }
        }
    }
}

/// Depth-first search from `node` in three colours: 0 unvisited, 1 in
/// progress (on the trail), 2 done. Reaching an entity in progress closes a
/// cycle: it is recorded and the search from the current start stops.
/// Returns whether it stopped.
#[verifier::rlimit(80)]
fn cycle_search(
    succ: &Vec<Vec<usize>>,
    node: usize,
    state: &mut Vec<u8>,
    trail: &mut Vec<usize>,
    cycles: &mut Vec<Vec<usize>>,
    Ghost(clean): Ghost<bool>,
) -> (stopped: bool)
    requires
        succ_ok(succ@, old(state)@.len() as nat),
        node < old(state)@.len(),
        old(state)@[node as int] == 0,
        trail_ok(succ_view(succ@), old(trail)@),
        old(trail)@.len() > 0 ==> succ@[old(trail)@.last() as int]@.contains(node),
        gray_is_trail(old(state)@, old(trail)@),
        clean ==> old(cycles)@.len() == 0,
        forall|k: int, i: int| 0 <= k < old(cycles)@.len() && 0 <= i < old(cycles)@[k]@.len() ==> #[trigger] old(cycles)@[k]@[i] < old(state)@.len(),
        forall|k: int| 0 <= k < old(cycles)@.len() ==> (#[trigger] old(cycles)@[k])@.len() > 0,
        colours(old(state)@),
        clean ==> done_closed(succ_view(succ@), old(state)@),
        clean ==> done_acyclic(succ_view(succ@), old(state)@),
    ensures
        colours(final(state)@),
        clean ==> done_closed(succ_view(succ@), final(state)@),
        clean ==> done_acyclic(succ_view(succ@), final(state)@),
        forall|m: int| 0 <= m < old(state)@.len() && old(state)@[m] == 2 ==> #[trigger] final(state)@[m] == 2,
        !stopped ==> final(state)@[node as int] == 2,
        forall|k: int| 0 <= k < final(cycles)@.len() ==> (#[trigger] final(cycles)@[k])@.len() > 0,
        forall|k: int, i: int| 0 <= k < final(cycles)@.len() && 0 <= i < final(cycles)@[k]@.len() ==> #[trigger] final(cycles)@[k]@[i] < old(state)@.len(),
        final(state)@.len() == old(state)@.len(),
        unvisited(final(state)@) < unvisited(old(state)@),
        forall|m: int| 0 <= m < old(state)@.len() && old(state)@[m] != 0 ==> #[trigger] final(state)@[m] != 0,
        !stopped ==> final(trail)@ == old(trail)@ && final(cycles)@ == old(cycles)@,
        !stopped ==> forall|m: int| 0 <= m < old(state)@.len() ==> (#[trigger] final(state)@[m] == 1 <==> old(state)@[m] == 1),
        final(cycles)@.len() >= old(cycles)@.len(),
        stopped ==> final(cycles)@.len() > old(cycles)@.len(),
        forall|k: int| 0 <= k < old(cycles)@.len() ==> #[trigger] final(cycles)@[k] == old(cycles)@[k],
        forall|k: int| old(cycles)@.len() <= k < final(cycles)@.len() ==> closed_walk(succ_view(succ@), #[trigger] final(cycles)@[k]@),
    decreases unvisited(old(state)@),
{
    let ghost n = state@.len();
    let ghost sv = succ_view(succ@);
    let ghost s0 = state@;
    let ghost t0 = trail@;
    proof {
        lemma_unvisited_set(state@, node as int, 1);
        lemma_succ_in_range(succ@, n);
        if clean {
            lemma_colour_gray(sv, state@, node as int);
        } else {
            assert(colours(state@.update(node as int, 1)));
        }
    }
    state.set(node, 1);
    trail.push(node);
    proof {
        assert(trail_ok(sv, trail@)) by {
            assert forall|i: int| 0 <= i < trail@.len() - 1 implies sv[trail@[i] as int].contains(#[trigger] trail@[i + 1]) by {
                if i < t0.len() - 1 {
                    assert(trail@[i] == t0[i] && trail@[i + 1] == t0[i + 1]);
                } else {
                    assert(trail@[i] == t0.last());
                    assert(sv[t0.last() as int] == succ@[t0.last() as int]@);
                }
            }
        }
        {
            assert(trail@ == t0.push(node));
            assert(gray_is_trail(s0, t0));
            assert forall|m: usize| (m as int) < state@.len() implies (#[trigger] state@[m as int] == 1 <==> trail@.contains(m)) by {
                if m == node {
                    assert(trail@[trail@.len() - 1] == node);
                } else {
                    assert(state@[m as int] == s0[m as int]);
                    assert(s0[m as int] == 1 <==> t0.contains(m));
                    if t0.contains(m) {
                        let q = choose|q: int| 0 <= q < t0.len() && t0[q] == m;
                        assert(trail@[q] == m);
                    }
                    if trail@.contains(m) {
                        let q = choose|q: int| 0 <= q < trail@.len() && trail@[q] == m;
                        if q < t0.len() {
                            assert(t0[q] == m);
                        }
                    }
                }
            }
        }
    }
    let ghost s1 = state@;
    let ghost t1 = trail@;
    let ghost c0 = cycles@;
    let mut idx: usize = 0;
    while idx < succ[node].len()
        invariant
            succ_ok(succ@, n),
            sv == succ_view(succ@),
            node < n,
            idx <= succ@[node as int]@.len(),
            state@.len() == n,
            unvisited(state@) <= unvisited(s1),
            unvisited(s1) < unvisited(s0),
            forall|m: int| 0 <= m < n && s1[m] != 0 ==> #[trigger] state@[m] != 0,
            forall|m: int| 0 <= m < n ==> (#[trigger] state@[m] == 1 <==> s1[m] == 1),
            state@[node as int] == 1,
            trail@ == t1,
            t1.len() > 0,
            t1.last() == node,
            trail_ok(sv, t1),
            gray_is_trail(s1, t1),
            cycles@ == c0,
            clean ==> c0.len() == 0,
            forall|k: int, i: int| 0 <= k < c0.len() && 0 <= i < c0[k]@.len() ==> #[trigger] c0[k]@[i] < n,
            forall|k: int| 0 <= k < c0.len() ==> (#[trigger] c0[k])@.len() > 0,
            s0 == old(state)@,
            s0[node as int] == 0,
            n == s0.len(),
            t0 == old(trail)@,
            c0 == old(cycles)@,
            t1 == t0.push(node),
            s1 == s0.update(node as int, 1),
            succ_in_range(sv),
            colours(state@),
            clean ==> done_closed(sv, state@),
            clean ==> done_acyclic(sv, state@),
            forall|m: int| 0 <= m < n && s1[m] == 2 ==> #[trigger] state@[m] == 2,
            forall|j: int| 0 <= j < idx ==> state@[#[trigger] succ@[node as int]@[j] as int] == 2,
        decreases succ@[node as int]@.len() - idx,
    {
        let m = succ[node][idx];
        proof {
            assert(m < n);
        }
        if state[m] == 0 {
            let ghost sb = state@;
            proof {
                assert forall|x: usize| (x as int) < state@.len() implies (#[trigger] state@[x as int] == 1 <==> trail@.contains(x)) by {
                    assert(state@[x as int] == 1 <==> s1[x as int] == 1);
                }
                assert(succ@[node as int]@.contains(m)) by {
                    assert(succ@[node as int]@[idx as int] == m);
                }
            }
            let stopped = cycle_search(succ, m, state, trail, cycles, Ghost(clean));
            if stopped {
                proof {
                    assert forall|x: int| 0 <= x < s0.len() && s0[x] != 0 implies #[trigger] state@[x] != 0 by {
                        assert(s1[x] != 0);
                        assert(sb[x] != 0);
                    }
                    assert forall|x: int| 0 <= x < s0.len() && s0[x] == 2 implies #[trigger] state@[x] == 2 by {
                        assert(x != node as int);
                        assert(s1[x] == 2);
                        assert(sb[x] == 2);
                    }
                }
                return true;
            }
            proof {
                assert forall|x: int| 0 <= x < n implies (#[trigger] state@[x] == 1 <==> s1[x] == 1) by {
                    assert(state@[x] == 1 <==> sb[x] == 1);
                }
                assert forall|x: int| 0 <= x < n && s1[x] == 2 implies #[trigger] state@[x] == 2 by {
                    assert(sb[x] == 2);
                }
                assert forall|j: int| 0 <= j < idx + 1 implies state@[#[trigger] succ@[node as int]@[j] as int] == 2 by {
                    if j < idx {
                        assert(sb[succ@[node as int]@[j] as int] == 2);
                    } else {
                        assert(succ@[node as int]@[j] == m);
                    }
                }
            }
        } else if state[m] == 1 {
            let mut pos: usize = 0;
            let mut found = false;
            let mut q: usize = 0;
            while q < trail.len()
                invariant
                    q <= trail@.len(),
                    !found ==> forall|r: int| 0 <= r < q ==> trail@[r] != m,
                    !found ==> pos == 0,
                    found ==> pos < trail@.len() && trail@[pos as int] == m,
                decreases trail.len() - q,
            {
                if !found && trail[q] == m {
                    pos = q;
                    found = true;
                }
                q = q + 1;
            }
            let mut cycle: Vec<usize> = Vec::new();
            let mut r = pos;
            assert(cycle@ =~= trail@.subrange(pos as int, pos as int));
            while r < trail.len()
                invariant
                    pos <= r <= trail@.len(),
                    cycle@ == trail@.subrange(pos as int, r as int),
                decreases trail.len() - r,
            {
                cycle.push(trail[r]);
                r = r + 1;
                proof {
                    assert(cycle@ =~= trail@.subrange(pos as int, r as int));
                }
            }
            cycle.push(m);
            proof {
                {
                    assert(trail@.contains(m)) by {
                        assert(s1[m as int] == 1);
                        assert(gray_is_trail(s1, t1));
                        assert(s1[m as int] == 1 <==> t1.contains(m));
                    }
                    if !found {
                        let w = choose|w: int| 0 <= w < trail@.len() && trail@[w] == m;
                        assert(trail@[w] != m);
                    }
                    let c = cycle@;
                    assert(c.len() >= 2);
                    assert(c[0] == m);
                    assert forall|i: int| 0 <= i < c.len() - 1 implies 0 <= c[i] < sv.len() && sv[c[i] as int].contains(#[trigger] c[i + 1]) by {
                        assert(c[i] == trail@[pos + i]);
                        if i < c.len() - 2 {
                            assert(c[i + 1] == trail@[pos + i + 1]);
                        } else {
                            assert(c[i] == node);
                            assert(succ@[node as int]@[idx as int] == m);
                            assert(sv[node as int] == succ@[node as int]@);
                            assert(c[i + 1] == m);
                        }
                    }
                }
            }
            proof {
                assert forall|i: int| 0 <= i < cycle@.len() implies #[trigger] cycle@[i] < n by {
                    if i < cycle@.len() - 1 {
                        assert(cycle@[i] == trail@[pos + i]);
                    }
                }
            }
            let ghost cb = cycles@;
            let ghost cw = cycle@;
            cycles.push(cycle);
            proof {
                assert(cycles@[cb.len() as int]@ == cw);
                assert forall|k: int| c0.len() <= k < cycles@.len() implies closed_walk(sv, #[trigger] cycles@[k]@) by {
                    assert(k == cb.len());
                }
                assert forall|k: int, i: int| 0 <= k < cycles@.len() && 0 <= i < cycles@[k]@.len() implies #[trigger] cycles@[k]@[i] < n by {
                    if k < cb.len() {
                        assert(cycles@[k] == cb[k]);
                    }
                }
                assert forall|k: int| 0 <= k < cycles@.len() implies (#[trigger] cycles@[k])@.len() > 0 by {
                    if k < cb.len() {
                        assert(cycles@[k] == cb[k]);
                    }
                }
            }
            trail.clear();
            proof {
                assert(unvisited(state@) < unvisited(s0));
                assert forall|x: int| 0 <= x < s0.len() && s0[x] == 2 implies #[trigger] state@[x] == 2 by {
                    assert(x != node as int);
                    assert(s1[x] == 2);
                }
            }
            return true;
        }
        idx = idx + 1;
    }
    proof {
        lemma_unvisited_set(state@, node as int, 2);
        assert forall|j: int| 0 <= j < sv[node as int].len() implies state@[#[trigger] sv[node as int][j] as int] == 2 by {
            assert(sv[node as int] == succ@[node as int]@);
        }
        if clean {
            lemma_colour_done(sv, state@, node as int);
        }
        assert(colours(state@.update(node as int, 2)));
    }
    state.set(node, 2);
    trail.pop();
    proof {
        assert(trail@ =~= t0);
        assert forall|x: int| 0 <= x < n implies (#[trigger] state@[x] == 1 <==> s0[x] == 1) by {
            if x != node {
                assert(state@[x] == 1 <==> s1[x] == 1);
            }
        }
    }
    false
}


/// The cycles found over the relation with successor lists `succ`: a
/// search from each entity with successors, in order, that is still
/// unvisited. Once a search finds a cycle, the entities it left in
/// progress count as done, so no later search mistakes them for a cycle.
/// Every cycle found is a closed walk, and when none is found the relation
/// has no closed walk at all.
fn relation_cycles(succ: &Vec<Vec<usize>>) -> (cycles: Vec<Vec<usize>>)
    requires
        succ_ok(succ@, succ@.len() as nat),
    ensures
        forall|k: int| 0 <= k < cycles@.len() ==> closed_walk(succ_view(succ@), #[trigger] cycles@[k]@),
        cycles@.len() == 0 ==> cycle_free(succ_view(succ@)),
        forall|k: int, i: int| 0 <= k < cycles@.len() && 0 <= i < cycles@[k]@.len() ==> #[trigger] cycles@[k]@[i] < succ@.len(),
        forall|k: int| 0 <= k < cycles@.len() ==> (#[trigger] cycles@[k])@.len() > 0,
{
    let n = succ.len();
    let mut state: Vec<u8> = Vec::new();
    let mut i: usize = 0;
    while i < n
        invariant
            i <= n,
            state@.len() == i,
            forall|j: int| 0 <= j < i ==> #[trigger] state@[j] == 0,
        decreases n - i,
    {
        state.push(0);
        i = i + 1;
    }
    let mut cycles: Vec<Vec<usize>> = Vec::new();
    let mut start: usize = 0;
    let ghost sv = succ_view(succ@);
    proof {
        lemma_succ_in_range(succ@, n as nat);
        assert forall|c: Seq<usize>| #[trigger] closed_walk(sv, c) implies !all_done(state@, c) by {
            let z: int = 0;
            assert(sv[c[z] as int].contains(c[z + 1]));
            assert(state@[c[0] as int] == 0);
        }
    }
    while start < n
        invariant
            start <= n,
            n == succ@.len(),
            sv == succ_view(succ@),
            succ_ok(succ@, n as nat),
            succ_in_range(sv),
            state@.len() == n,
            colours(state@),
            cycles@.len() == 0 ==> done_closed(sv, state@),
            cycles@.len() == 0 ==> done_acyclic(sv, state@),
            cycles@.len() == 0 ==> forall|x: int| 0 <= x < start && succ@[x]@.len() > 0 ==> #[trigger] state@[x] == 2,
            gray_is_trail(state@, Seq::<usize>::empty()),
            forall|k: int| 0 <= k < cycles@.len() ==> closed_walk(sv, #[trigger] cycles@[k]@),
            forall|k: int, q: int| 0 <= k < cycles@.len() && 0 <= q < cycles@[k]@.len() ==> #[trigger] cycles@[k]@[q] < n,
            forall|k: int| 0 <= k < cycles@.len() ==> (#[trigger] cycles@[k])@.len() > 0,
        decreases n - start,
    {
        if succ[start].len() > 0 && state[start] == 0 {
            let mut trail: Vec<usize> = Vec::new();
            let ghost clean = cycles@.len() == 0;
            let ghost before = cycles@;
            let ghost sb = state@;
            let stopped = cycle_search(succ, start, &mut state, &mut trail, &mut cycles, Ghost(clean));
            proof {
                assert forall|k: int| 0 <= k < cycles@.len() implies closed_walk(sv, #[trigger] cycles@[k]@) by {
                    if k < before.len() {
                        assert(cycles@[k] == before[k]);
                    }
                }
                if !stopped {
                    assert forall|m: usize| (m as int) < state@.len() implies (#[trigger] state@[m as int] == 1 <==> Seq::<usize>::empty().contains(m)) by {
                        assert(state@[m as int] == 1 <==> sb[m as int] == 1);
                    }
                }
                if cycles@.len() == 0 {
                    assert forall|x: int| 0 <= x <= start && succ@[x]@.len() > 0 implies #[trigger] state@[x] == 2 by {
                        if x < start {
                            assert(sb[x] == 2);
                        }
                    }
                }
            }
            if stopped {
                let mut x: usize = 0;
                while x < n
                    invariant
                        x <= n,
                        state@.len() == n,
                        colours(state@),
                        forall|y: int| 0 <= y < x ==> #[trigger] state@[y] != 1,
                    decreases n - x,
                {
                    if state[x] == 1 {
                        state.set(x, 2);
                    }
                    x = x + 1;
                }
                proof {
                    assert forall|m: usize| (m as int) < state@.len() implies (#[trigger] state@[m as int] == 1 <==> Seq::<usize>::empty().contains(m)) by {
                        assert(state@[m as int] != 1);
                    }
                }
            }
        } else {
            proof {
                if cycles@.len() == 0 && succ@[start as int]@.len() > 0 {
                    assert(state@[start as int] == 1 <==> Seq::<usize>::empty().contains(start));
                    assert(state@[start as int] <= 2);
                }
            }
        }
        start = start + 1;
    }
    proof {
        if cycles@.len() == 0 {
            assert forall|c: Seq<usize>| !#[trigger] closed_walk(sv, c) by {
                if closed_walk(sv, c) {
                    let z: int = 0;
                    assert(sv[c[z] as int].contains(c[z + 1]));
                    assert(sv[c[0] as int] == succ@[c[0] as int]@);
                    assert(state@[c[0] as int] == 2);
                    lemma_stays_done(sv, state@, c, 0);
                    assert(all_done(state@, c));
                }
            }
        }
    }
    cycles
}


/// The position of `t` among the first `k` refs.
pub open spec fn ref_pos_upto(refs: Seq<RefV>, t: RefV, k: nat) -> Option<int>
    decreases k,
{
    if k == 0 {
        None
    } else {
        match ref_pos_upto(refs, t, (k - 1) as nat) {
            Some(i) => Some(i),
            None => if refs[k - 1] == t {
                Some((k - 1) as int)
            } else {
                None
            },
        }
    }
}

pub open spec fn ref_pos(refs: Seq<RefV>, t: RefV) -> Option<int> {
    ref_pos_upto(refs, t, refs.len())
}

proof fn lemma_ref_pos_upto(refs: Seq<RefV>, t: RefV, k: nat)
    requires
        k <= refs.len(),
    ensures
        ref_pos_upto(refs, t, k) matches Some(i) ==> 0 <= i < k && refs[i] == t,
    decreases k,
{
    if k > 0 {
        lemma_ref_pos_upto(refs, t, (k - 1) as nat);
    }
}

proof fn lemma_ref_pos_stable(refs: Seq<RefV>, t: RefV, k: nat, m: nat)
    requires
        k <= m,
        ref_pos_upto(refs, t, k) is Some,
    ensures
        ref_pos_upto(refs, t, m) == ref_pos_upto(refs, t, k),
    decreases m,
{
    if m > k {
        lemma_ref_pos_stable(refs, t, k, (m - 1) as nat);
    }
}

fn find_ref(refs: &Vec<EntityRef>, t: &EntityRef) -> (r: Option<usize>)
    ensures
        match r {
            Some(i) => ref_pos(refs_view(refs@), t@) == Some(i as int) && i < refs@.len(),
            None => ref_pos(refs_view(refs@), t@) is None,
        },
{
    let ghost rv = refs_view(refs@);
    let mut k: usize = 0;
    while k < refs.len()
        invariant
            k <= refs.len(),
            rv == refs_view(refs@),
            ref_pos_upto(rv, t@, k as nat) is None,
        decreases refs.len() - k,
    {
        proof {
            assert(rv[k as int] == refs@[k as int]@);
        }
        if refs[k].same(t) {
            proof {
                lemma_ref_pos_stable(rv, t@, (k + 1) as nat, rv.len());
            }
            return Some(k);
        }
        k = k + 1;
    }
    None
}

/// The successors of the `i`-th ref over the first `k` edges of type `rel`:
/// the positions of their targets, in edge order.
pub open spec fn succ_upto(refs: Seq<RefV>, edges: Seq<Key3>, rel: Seq<char>, i: int, k: nat) -> Seq<usize>
    decreases k,
{
    if k == 0 {
        seq![]
    } else {
        let before = succ_upto(refs, edges, rel, i, (k - 1) as nat);
        let e = edges[k - 1];
        if e.1 == rel && e.0 == refs[i] && ref_pos(refs, e.2) is Some {
            before.push(ref_pos(refs, e.2)->0 as usize)
        } else {
            before
        }
    }
}

/// The graph of relation type `rel` over the refs: successor lists by position.
pub open spec fn adjacency(refs: Seq<RefV>, edges: Seq<Key3>, rel: Seq<char>) -> Seq<Seq<usize>> {
    Seq::new(refs.len(), |i: int| succ_upto(refs, edges, rel, i, edges.len()))
}

fn build_succ(refs: &Vec<EntityRef>, edges: &Vec<EdgeTriple>, rel: &str) -> (succ: Vec<Vec<usize>>)
    ensures
        succ_view(succ@) == adjacency(refs_view(refs@), triples_view(edges@), rel@),
        succ_ok(succ@, refs@.len() as nat),
{
    let ghost rv = refs_view(refs@);
    let ghost ev = triples_view(edges@);
    let mut tpos: Vec<Option<usize>> = Vec::new();
    let mut k: usize = 0;
    while k < edges.len()
        invariant
            k <= edges.len(),
            rv == refs_view(refs@),
            ev == triples_view(edges@),
            tpos@.len() == k,
            forall|q: int| 0 <= q < k ==> match #[trigger] tpos@[q] {
                Some(p) => ref_pos(rv, ev[q].2) == Some(p as int) && p < rv.len(),
                None => ref_pos(rv, ev[q].2) is None,
            },
        decreases edges.len() - k,
    {
        proof {
            assert(ev[k as int] == triple_view(edges@[k as int]));
        }
        tpos.push(find_ref(refs, &edges[k].2));
        k = k + 1;
    }
    let mut succ: Vec<Vec<usize>> = Vec::new();
    let mut i: usize = 0;
    while i < refs.len()
        invariant
            i <= refs.len(),
            rv == refs_view(refs@),
            ev == triples_view(edges@),
            tpos@.len() == edges@.len(),
            forall|q: int| 0 <= q < edges@.len() ==> match #[trigger] tpos@[q] {
                Some(p) => ref_pos(rv, ev[q].2) == Some(p as int) && p < rv.len(),
                None => ref_pos(rv, ev[q].2) is None,
            },
            succ@.len() == i,
            forall|j: int| 0 <= j < i ==> (#[trigger] succ@[j])@ == succ_upto(rv, ev, rel@, j, ev.len()),
            forall|j: int, q: int| 0 <= j < i && 0 <= q < succ@[j]@.len() ==> #[trigger] succ@[j]@[q] < rv.len(),
        decreases refs.len() - i,
    {
        let mut list: Vec<usize> = Vec::new();
        let mut k: usize = 0;
        while k < edges.len()
            invariant
                k <= edges.len(),
                i < refs.len(),
                rv == refs_view(refs@),
                ev == triples_view(edges@),
                tpos@.len() == edges@.len(),
                forall|q: int| 0 <= q < edges@.len() ==> match #[trigger] tpos@[q] {
                    Some(p) => ref_pos(rv, ev[q].2) == Some(p as int) && p < rv.len(),
                    None => ref_pos(rv, ev[q].2) is None,
                },
                list@ == succ_upto(rv, ev, rel@, i as int, k as nat),
                forall|q: int| 0 <= q < list@.len() ==> #[trigger] list@[q] < rv.len(),
            decreases edges.len() - k,
        {
            let e = &edges[k];
            proof {
                assert(ev[k as int] == triple_view(edges@[k as int]));
                assert(rv[i as int] == refs@[i as int]@);
            }
            if crate::text::str_eq(e.1.as_str(), rel) && e.0.same(&refs[i]) {
                match tpos[k] {
                    Some(p) => {
                        list.push(p);
                    },
                    None => {},
                }
            }
            k = k + 1;
        }
        succ.push(list);
        i = i + 1;
    }
    proof {
        assert(succ_view(succ@) =~= adjacency(rv, ev, rel@));
    }
    succ
}

/// Each cycle found is of a relation type declared acyclic and lists refs.
pub open spec fn found_in_range(schema: crate::model::Schema, refs: Seq<RefV>, found: Seq<(usize, Seq<usize>)>) -> bool {
    &&& forall|k: int|
        0 <= k < found.len() ==> (#[trigger] found[k]).0 < schema.relations@.len() && schema.relations@[found[k].0 as int].1.acyclic
            && found[k].1.len() > 0
    &&& forall|k: int, q: int| 0 <= k < found.len() && 0 <= q < found[k].1.len() ==> #[trigger] found[k].1[q] < refs.len()
}

/// Some cycle was found for the `r`-th relation type.
pub open spec fn found_for(found: Seq<(usize, Seq<usize>)>, r: int) -> bool {
    exists|k: int| 0 <= k < found.len() && #[trigger] found[k].0 == r
}

/// Each of the first `upto` relation types declared acyclic for which no
/// cycle was found has no closed walk along its edges.
pub open spec fn complete_upto(
    schema: crate::model::Schema,
    refs: Seq<RefV>,
    edges: Seq<Key3>,
    found: Seq<(usize, Seq<usize>)>,
    upto: int,
) -> bool {
    forall|r: int|
        0 <= r < upto && schema.relations@[r].1.acyclic && !#[trigger] found_for(found, r) ==> cycle_free(
            adjacency(refs, edges, schema.relations@[r].0@),
        )
}

/// The cycles found, by relation type in schema order; each is a closed
/// walk along the edges of its relation type, and a relation type declared
/// acyclic with no cycle found has none.
pub open spec fn cycles_ok(
    schema: crate::model::Schema,
    refs: Seq<RefV>,
    edges: Seq<Key3>,
    found: Seq<(usize, Seq<usize>)>,
) -> bool {
    &&& cycles_sound(schema, refs, edges, found)
    &&& complete_upto(schema, refs, edges, found, schema.relations@.len() as int)
}

/// The cycles found, by relation type in schema order; each is a closed
/// walk along the edges of its relation type.
pub open spec fn cycles_sound(
    schema: crate::model::Schema,
    refs: Seq<RefV>,
    edges: Seq<Key3>,
    found: Seq<(usize, Seq<usize>)>,
) -> bool {
    &&& found_in_range(schema, refs, found)
    &&& forall|k: int, j: int| 0 <= k < j < found.len() ==> #[trigger] found[k].0 <= #[trigger] found[j].0
    &&& forall|k: int|
        0 <= k < found.len() ==> closed_walk(
            adjacency(refs, edges, schema.relations@[(#[trigger] found[k]).0 as int].0@),
            found[k].1,
        )
}

pub open spec fn found_view(v: Seq<(usize, Vec<usize>)>) -> Seq<(usize, Seq<usize>)> {
    v.map_values(|p: (usize, Vec<usize>)| (p.0, p.1@))
}

/// Search each relation type declared acyclic for cycles.
fn find_cycles(schema: &crate::model::Schema, refs: &Vec<EntityRef>, edges: &Vec<EdgeTriple>) -> (found: Vec<(usize, Vec<usize>)>)
    ensures
        cycles_ok(*schema, refs_view(refs@), triples_view(edges@), found_view(found@)),
{
    let mut found: Vec<(usize, Vec<usize>)> = Vec::new();
    let mut r: usize = 0;
    while r < schema.relations.len()
        invariant
            r <= schema.relations.len(),
            cycles_sound(*schema, refs_view(refs@), triples_view(edges@), found_view(found@)),
            complete_upto(*schema, refs_view(refs@), triples_view(edges@), found_view(found@), r as int),
            forall|k: int| 0 <= k < found@.len() ==> #[trigger] found@[k].0 < r,
        decreases schema.relations.len() - r,
    {
        if schema.relations[r].1.acyclic {
            let succ = build_succ(refs, edges, schema.relations[r].0.as_str());
            let cycles = relation_cycles(&succ);
            let ghost f0 = found_view(found@);
            let ghost base = found@.len();
            let mut c: usize = 0;
            while c < cycles.len()
                invariant
                    c <= cycles@.len(),
                    r < schema.relations@.len(),
                    schema.relations@[r as int].1.acyclic,
                    succ_view(succ@) == adjacency(refs_view(refs@), triples_view(edges@), schema.relations@[r as int].0@),
                    succ@.len() == refs@.len(),
                    forall|k: int| 0 <= k < cycles@.len() ==> closed_walk(succ_view(succ@), #[trigger] cycles@[k]@),
                    cycles@.len() == 0 ==> cycle_free(succ_view(succ@)),
                    forall|k: int, i: int| 0 <= k < cycles@.len() && 0 <= i < cycles@[k]@.len() ==> #[trigger] cycles@[k]@[i] < succ@.len(),
                    forall|k: int| 0 <= k < cycles@.len() ==> (#[trigger] cycles@[k])@.len() > 0,
                    found@.len() == base + c,
                    f0.len() == base,
                    forall|k: int| 0 <= k < base ==> #[trigger] found_view(found@)[k] == f0[k],
                    forall|k: int| 0 <= k < base ==> #[trigger] f0[k].0 < r,
                    forall|k: int| base <= k < found@.len() ==> #[trigger] found@[k].0 == r && found@[k].1@ == cycles@[k - base]@,
                    cycles_sound(*schema, refs_view(refs@), triples_view(edges@), f0),
                    complete_upto(*schema, refs_view(refs@), triples_view(edges@), f0, r as int),
                decreases cycles.len() - c,
            {
                let mut copy: Vec<usize> = Vec::new();
                let mut q: usize = 0;
                while q < cycles[c].len()
                    invariant
                        q <= cycles@[c as int]@.len(),
                        c < cycles@.len(),
                        copy@ == cycles@[c as int]@.take(q as int),
                    decreases cycles@[c as int]@.len() - q,
                {
                    copy.push(cycles[c][q]);
                    q = q + 1;
                    proof {
                        assert(copy@ =~= cycles@[c as int]@.take(q as int));
                    }
                }
                proof {
                    assert(cycles@[c as int]@.take(cycles@[c as int]@.len() as int) =~= cycles@[c as int]@);
                }
                let ghost fb = found@;
                found.push((r, copy));
                proof {
                    assert forall|k: int| 0 <= k < base implies #[trigger] found_view(found@)[k] == f0[k] by {
                        assert(found@[k] == fb[k]);
                        assert(found_view(fb)[k] == f0[k]);
                    }
                    assert forall|k: int| base <= k < found@.len() implies #[trigger] found@[k].0 == r && found@[k].1@ == cycles@[k - base]@ by {
                        if k < found@.len() - 1 {
                            assert(found@[k] == fb[k]);
                        }
                    }
                }
                c = c + 1;
            }
            proof {
                let fv = found_view(found@);
                let rv = refs_view(refs@);
                let ev = triples_view(edges@);
                assert forall|k: int| 0 <= k < fv.len() implies (#[trigger] fv[k]).0 < schema.relations@.len()
                    && schema.relations@[fv[k].0 as int].1.acyclic && fv[k].1.len() > 0 by {
                    if k < base {
                        assert(fv[k] == f0[k]);
                    } else {
                        assert(fv[k].1 == cycles@[k - base]@);
                    }
                }
                assert forall|k: int, q: int| 0 <= k < fv.len() && 0 <= q < fv[k].1.len() implies #[trigger] fv[k].1[q] < rv.len() by {
                    if k < base {
                        assert(fv[k] == f0[k]);
                    } else {
                        assert(fv[k].1 == cycles@[k - base]@);
                        assert(cycles@[k - base]@[q] < succ@.len());
                    }
                }
                assert forall|k: int, j: int| 0 <= k < j < fv.len() implies #[trigger] fv[k].0 <= #[trigger] fv[j].0 by {
                    if j < base {
                        assert(fv[k] == f0[k] && fv[j] == f0[j]);
                    } else if k < base {
                        assert(fv[k] == f0[k]);
                        assert(f0[k].0 < r);
                    }
                }
                assert forall|k: int|
                    0 <= k < fv.len() implies closed_walk(
                        adjacency(rv, ev, schema.relations@[(#[trigger] fv[k]).0 as int].0@),
                        fv[k].1,
                    ) by {
                    if k < base {
                        assert(fv[k] == f0[k]);
                    } else {
                        assert(fv[k].1 == cycles@[k - base]@);
                        assert(closed_walk(succ_view(succ@), cycles@[k - base]@));
                    }
                }
                assert forall|k: int| 0 <= k < found@.len() implies #[trigger] found@[k].0 < r + 1 by {
                    if k < base {
                        assert(fv[k] == f0[k]);
                    }
                }
                assert forall|x: int|
                    0 <= x < r + 1 && schema.relations@[x].1.acyclic && !#[trigger] found_for(fv, x) implies cycle_free(
                        adjacency(rv, ev, schema.relations@[x].0@),
                    ) by {
                    if x < r {
                        if found_for(f0, x) {
                            let k = choose|k: int| 0 <= k < f0.len() && #[trigger] f0[k].0 == x;
                            assert(fv[k] == f0[k]);
                        }
                    } else if cycles@.len() > 0 {
                        assert(fv[base as int].0 == r);
                    }
                }
            }
        } else {
            proof {
                let fv = found_view(found@);
                assert forall|x: int|
                    0 <= x < r + 1 && schema.relations@[x].1.acyclic && !#[trigger] found_for(fv, x) implies cycle_free(
                        adjacency(refs_view(refs@), triples_view(edges@), schema.relations@[x].0@),
                    ) by {
                }
            }
        }
        r = r + 1;
    }
    found
}


/// Refs joined by arrows.
pub open spec fn arrow_join(s: Seq<Seq<char>>) -> Seq<char>
    decreases s.len(),
{
    if s.len() == 0 {
        seq![]
    } else if s.len() == 1 {
        s[0]
    } else {
        arrow_join(s.drop_last()) + " → "@ + s.last()
    }
}

pub open spec fn cycle_message(rel: Seq<char>, names: Seq<Seq<char>>) -> Seq<char> {
    "`"@ + rel + "` is declared acyclic but cycles: "@ + arrow_join(names)
}

/// The finding for a cycle found in relation type number `f.0`.
pub open spec fn cycle_diag(schema: crate::model::Schema, refs: Seq<RefV>, f: (usize, Seq<usize>)) -> DiagnosticV {
    let rel = schema.relations@[f.0 as int].0@;
    let names = f.1.map_values(|i: usize| canonical(refs[i as int]));
    DiagnosticV {
        severity: Severity::Error,
        code: "cycle"@,
        file: None,
        line: None,
        entity: Some(canonical(refs[f.1.last() as int])),
        path: Some(rel_path(rel)),
        message: cycle_message(rel, names),
        suggestion: None,
    }
}

fn cycle_error(schema: &crate::model::Schema, refs: &Vec<EntityRef>, r: usize, cycle: &Vec<usize>) -> (d: Diagnostic)
    requires
        r < schema.relations@.len(),
        cycle@.len() > 0,
        forall|q: int| 0 <= q < cycle@.len() ==> #[trigger] cycle@[q] < refs@.len(),
    ensures
        d@ == cycle_diag(*schema, refs_view(refs@), (r, cycle@)),
{
    let rel = schema.relations[r].0.as_str();
    let ghost rv = refs_view(refs@);
    let ghost names = cycle@.map_values(|i: usize| canonical(rv[i as int]));
    let mut joined = refs[cycle[0]].to_string();
    proof {
        assert(names.take(1) =~= seq![names[0]]);
        assert(arrow_join(names.take(1)) == names[0]);
        assert(rv[cycle@[0] as int] == refs@[cycle@[0] as int]@);
    }
    let mut i: usize = 1;
    while i < cycle.len()
        invariant
            1 <= i <= cycle@.len(),
            rv == refs_view(refs@),
            names == cycle@.map_values(|i: usize| canonical(rv[i as int])),
            forall|q: int| 0 <= q < cycle@.len() ==> #[trigger] cycle@[q] < refs@.len(),
            joined@ == arrow_join(names.take(i as int)),
        decreases cycle.len() - i,
    {
        joined.append(" → ");
        joined.append(refs[cycle[i]].to_string().as_str());
        proof {
            assert(rv[cycle@[i as int] as int] == refs@[cycle@[i as int] as int]@);
            assert(names.take(i + 1).drop_last() =~= names.take(i as int));
            assert(names.take(i + 1).last() == names[i as int]);
        }
        i = i + 1;
    }
    proof {
        assert(names.take(cycle@.len() as int) =~= names);
        assert(rv[cycle@.last() as int] == refs@[cycle@.last() as int]@);
    }
    let mut m = crate::text::concat3("`", rel, "` is declared acyclic but cycles: ");
    m.append(joined.as_str());
    let last = cycle[cycle.len() - 1];
    Diagnostic {
        severity: Severity::Error,
        code: "cycle",
        file: None,
        line: None,
        entity: Some(refs[last].to_string()),
        path: Some(crate::text::concat("relations.", rel)),
        message: m,
        suggestion: None,
    }
}

// ───────────────────────────── the report ─────────────────────────────

/// One sort key per entity: its ref.
pub open spec fn entity_ref_keys(es: Seq<Entity>) -> Seq<Seq<KeyPartV>> {
    es.map_values(|e: Entity| ref_key(e.eref@))
}

/// The entities' refs, each once, in ref order, as a tally lists them.
pub open spec fn tallied_refs(es: Seq<Entity>, t: Seq<(usize, usize)>) -> Seq<RefV> {
    t.map_values(|p: (usize, usize)| es[p.0 as int].eref@)
}

/// Everything validation finds, before ordering: loading's findings, the
/// schema's, the pass over relation entries, orphans, cycles, anchors.
pub open spec fn all_findings(
    v: crate::vault::Vault,
    files: Seq<Seq<char>>,
    refs: Seq<RefV>,
    found: Seq<(usize, Seq<usize>)>,
) -> Seq<DiagnosticV> {
    let es = v.entities@;
    let pass = entities_pass(v.schema, refs, es, es.len());
    diags_view(v.load_diags@) + schema_diags_upto(v.schema@.relations, v.schema@.relations.len()) + pass.diags
        + orphan_diags_upto(es, pass.edges, es.len()) + found.map_values(|f: (usize, Seq<usize>)| cycle_diag(v.schema, refs, f))
        + anchor_diags_upto(es, files, v.project_root@, es.len())
}

/// The report is right for a tally `t` of the entities' refs and the cycles `found`.
pub open spec fn report_ok(v: crate::vault::Vault, files: Seq<Seq<char>>, t: Seq<(usize, usize)>, found: Seq<(usize, Seq<usize>)>, r: Seq<DiagnosticV>) -> bool {
    let es = v.entities@;
    let refs = tallied_refs(es, t);
    &&& tally_ok_refs(es, t)
    &&& cycles_ok(v.schema, refs, entities_pass(v.schema, refs, es, es.len()).edges, found)
    &&& r == ordered_diags(all_findings(v, files, refs, found))
}

pub open spec fn tally_ok_refs(es: Seq<Entity>, t: Seq<(usize, usize)>) -> bool {
    crate::sort::tally_ok(entity_ref_keys(es), t)
}

fn copy_diags(v: &Vec<Diagnostic>) -> (r: Vec<Diagnostic>)
    ensures
        diags_view(r@) == diags_view(v@),
{
    let mut all: Vec<Diagnostic> = Vec::new();
    let mut i: usize = 0;
    while i < v.len()
        invariant
            i <= v.len(),
            diags_view(all@) == diags_view(v@.take(i as int)),
        decreases v.len() - i,
    {
        all.push(clone_diag(&v[i]));
        proof {
            assert(v@.take(i + 1) =~= v@.take(i as int).push(v@[i as int]));
            assert(diags_view(v@.take(i + 1)) =~= diags_view(v@.take(i as int)).push(v@[i as int]@));
            assert(diags_view(all@) =~= diags_view(all@.drop_last()).push(all@.last()@));
        }
        i = i + 1;
    }
    proof {
        assert(v@.take(v@.len() as int) =~= v@);
    }
    all
}

/// The entities' refs, each once, in ref order, with the tally that lists them.
pub fn sorted_refs(es: &Vec<Entity>) -> (r: (Vec<EntityRef>, Vec<(usize, usize)>))
    ensures
        tally_ok_refs(es@, r.1@),
        refs_view(r.0@) == tallied_refs(es@, r.1@),
{
    let mut keys: Vec<SortKey> = Vec::new();
    let mut k: usize = 0;
    while k < es.len()
        invariant
            k <= es.len(),
            keys@.len() == k,
            forall|q: int| 0 <= q < k ==> key_view(#[trigger] keys@[q]) == ref_key(es@[q].eref@),
        decreases es.len() - k,
    {
        keys.push(ref_sort_key(&es[k].eref));
        k = k + 1;
    }
    proof {
        assert(keys_view(keys@) =~= entity_ref_keys(es@));
    }
    let t = crate::sort::tally(&keys);
    let mut refs: Vec<EntityRef> = Vec::new();
    let mut j: usize = 0;
    while j < t.len()
        invariant
            j <= t.len(),
            crate::sort::tally_ok(entity_ref_keys(es@), t@),
            entity_ref_keys(es@).len() == es@.len(),
            refs_view(refs@) == tallied_refs(es@, t@.take(j as int)),
        decreases t.len() - j,
    {
        proof {
            assert(t@[j as int].0 < entity_ref_keys(es@).len());
        }
        let x = es[t[j].0].eref.clone();
        refs.push(x);
        proof {
            assert(t@.take(j + 1) =~= t@.take(j as int).push(t@[j as int]));
            assert(tallied_refs(es@, t@.take(j + 1)) =~= tallied_refs(es@, t@.take(j as int)).push(es@[t@[j as int].0 as int].eref@));
            assert(refs_view(refs@) =~= refs_view(refs@.drop_last()).push(refs@.last()@));
        }
        j = j + 1;
    }
    proof {
        assert(t@.take(t@.len() as int) =~= t@);
    }
    (refs, t)
}

fn cycle_findings(schema: &crate::model::Schema, refs: &Vec<EntityRef>, found: &Vec<(usize, Vec<usize>)>) -> (r: Vec<Diagnostic>)
    requires
        found_in_range(*schema, refs_view(refs@), found_view(found@)),
    ensures
        diags_view(r@) == found_view(found@).map_values(|f: (usize, Seq<usize>)| cycle_diag(*schema, refs_view(refs@), f)),
{
    let ghost rv = refs_view(refs@);
    let ghost fv = found_view(found@);
    let mut all: Vec<Diagnostic> = Vec::new();
    let mut c: usize = 0;
    while c < found.len()
        invariant
            c <= found@.len(),
            found_in_range(*schema, rv, fv),
            rv == refs_view(refs@),
            fv == found_view(found@),
            diags_view(all@) == fv.take(c as int).map_values(|f: (usize, Seq<usize>)| cycle_diag(*schema, rv, f)),
        decreases found.len() - c,
    {
        proof {
            assert(fv[c as int] == (found@[c as int].0, found@[c as int].1@));
            assert forall|q: int| 0 <= q < found@[c as int].1@.len() implies #[trigger] found@[c as int].1@[q] < refs@.len() by {
                assert(fv[c as int].1[q] < rv.len());
            }
        }
        let d = cycle_error(schema, refs, found[c].0, &found[c].1);
        all.push(d);
        proof {
            assert(d@ == cycle_diag(*schema, rv, fv[c as int]));
            assert(fv.take(c + 1) =~= fv.take(c as int).push(fv[c as int]));
            assert(fv.take(c + 1).map_values(|f: (usize, Seq<usize>)| cycle_diag(*schema, rv, f)) =~= fv.take(
                c as int,
            ).map_values(|f: (usize, Seq<usize>)| cycle_diag(*schema, rv, f)).push(cycle_diag(*schema, rv, fv[c as int])));
            assert(diags_view(all@) =~= diags_view(all@.drop_last()).push(all@.last()@));
        }
        c = c + 1;
    }
    proof {
        assert(fv.take(fv.len() as int) =~= fv);
    }
    all
}

proof fn lemma_diags_append(a: Seq<Diagnostic>, b: Seq<Diagnostic>)
    ensures
        diags_view(a + b) == diags_view(a) + diags_view(b),
{
    assert(diags_view(a + b) =~= diags_view(a) + diags_view(b));
}

/// Validate a loaded vault against its schema. `project_files` are the
/// files of the project (relative to its root, `/`-separated) that source
/// anchors are matched against. Findings come errors first, then by file
/// and line.
#[verifier::rlimit(100)]
#[verifier::spinoff_prover]
pub fn run(vault: &crate::vault::Vault, project_files: &Vec<String>) -> (r: Report)
    ensures
        exists|t: Seq<(usize, usize)>, found: Seq<(usize, Seq<usize>)>|
            #[trigger] report_ok(*vault, strs(project_files@), t, found, diags_view(r.diags@)),
{
    let es = &vault.entities;
    let mut all = copy_diags(&vault.load_diags);
    let mut part = schema_checks(&vault.schema);
    proof {
        lemma_diags_append(all@, part@);
    }
    all.append(&mut part);
    let (refs, t) = sorted_refs(es);
    let ghost rv = refs_view(refs@);
    let mut st = check_entities(&vault.schema, &refs, es);
    proof {
        lemma_diags_append(all@, st.diags@);
    }
    all.append(&mut st.diags);
    let mut orphan_found = orphans(es, &st.edges);
    proof {
        lemma_diags_append(all@, orphan_found@);
    }
    all.append(&mut orphan_found);
    let found = find_cycles(&vault.schema, &refs, &st.edges);
    let mut cyc = cycle_findings(&vault.schema, &refs, &found);
    proof {
        lemma_diags_append(all@, cyc@);
    }
    all.append(&mut cyc);
    let mut anchor_found = if has_anchors(es) {
        anchor_checks(es, project_files, vault.project_root.as_str())
    } else {
        Vec::new()
    };
    proof {
        if !has_anchors_spec(es@) {
            lemma_no_anchors(es@, strs(project_files@), vault.project_root@, es@.len() as nat);
            assert(diags_view(anchor_found@) =~= Seq::<DiagnosticV>::empty());
        }
        lemma_diags_append(all@, anchor_found@);
    }
    all.append(&mut anchor_found);
    let ghost unordered = diags_view(all@);
    order(&mut all);
    proof {
        let fv = found_view(found@);
        assert(unordered == all_findings(*vault, strs(project_files@), rv, fv));
        assert(report_ok(*vault, strs(project_files@), t@, fv, diags_view(all@)));
    }
    let r = Report { diags: all };
    proof {
        let fv = found_view(found@);
        assert(report_ok(*vault, strs(project_files@), t@, fv, diags_view(r.diags@)));
    }
    r
}

pub open spec fn has_anchors_spec(es: Seq<Entity>) -> bool {
    exists|i: int| 0 <= i < es.len() && (#[trigger] es[i]).fm.source@.len() > 0
}

proof fn lemma_no_anchors(es: Seq<Entity>, files: Seq<Seq<char>>, root: Seq<char>, k: nat)
    requires
        k <= es.len(),
        !has_anchors_spec(es),
    ensures
        anchor_diags_upto(es, files, root, k) == Seq::<DiagnosticV>::empty(),
    decreases k,
{
    if k > 0 {
        lemma_no_anchors(es, files, root, (k - 1) as nat);
        assert(es[k - 1].fm.source@.len() == 0);
    }
}

} // verus!
