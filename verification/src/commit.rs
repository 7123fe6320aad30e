//! The check every write passes before it touches the disk: the edits are
//! applied to a copy of the vault, the copy is validated, and the edits are
//! refused when the copy has an error the vault did not have already. A
//! vault that is already broken can still be repaired.

use vstd::prelude::*;
use crate::diag::{diags_view, render_text, Diagnostic, DiagnosticV, Severity};
use crate::model::{strs, Entity, EntityV};
use crate::text::concat;
use crate::validate::report_ok;
use crate::vault::{entities_view, parse_entity, parse_entity_spec, slash_join, slash_text, strings_view, FmParse, FmParseV, Vault};

verus! {

/// One edit of the vault's files, as the writer will make it: a file
/// deleted, or a file written with its path components, its full text and
/// what the YAML reader makes of that text's frontmatter.
pub enum Edit {
    Delete { rel: String },
    Write { parts: Vec<String>, raw: String, fm: FmParse },
}

pub enum EditV {
    Delete { rel: Seq<char> },
    Write { parts: Seq<Seq<char>>, raw: Seq<char>, fm: FmParseV },
}

impl View for Edit {
    type V = EditV;

    open spec fn view(&self) -> EditV {
        match self {
            Edit::Delete { rel } => EditV::Delete { rel: rel@ },
            Edit::Write { parts, raw, fm } => EditV::Write { parts: strings_view(parts@), raw: raw@, fm: fm@ },
        }
    }
}

pub open spec fn edits_view(v: Seq<Edit>) -> Seq<EditV> {
    v.map_values(|e: Edit| e@)
}

/// The entities, without the one (if any) stored in `rel`.
pub open spec fn without_file(es: Seq<EntityV>, rel: Seq<char>) -> Seq<EntityV>
    decreases es.len(),
{
    if es.len() == 0 {
        seq![]
    } else {
        let before = without_file(es.drop_last(), rel);
        if es.last().file == rel {
            before
        } else {
            before.push(es.last())
        }
    }
}

/// The first error among the findings.
pub open spec fn first_error(ds: Seq<DiagnosticV>) -> Option<DiagnosticV>
    decreases ds.len(),
{
    if ds.len() == 0 {
        None
    } else if ds[0].severity == Severity::Error {
        Some(ds[0])
    } else {
        first_error(ds.drop_first())
    }
}

pub open spec fn parse_back_message(d: DiagnosticV) -> Seq<char> {
    "the write would not parse back: "@ + render_text(d)
}

/// One edit applied to the entities: a written file must parse back
/// without error, and then stands in place of any entity stored there.
pub open spec fn apply_one(es: Seq<EntityV>, e: EditV) -> Result<Seq<EntityV>, Seq<char>> {
    match e {
        EditV::Delete { rel } => Ok(without_file(es, rel)),
        EditV::Write { parts, raw, fm } => {
            let parsed = parse_entity_spec(parts, raw, fm);
            match first_error(parsed.1) {
                Some(d) => Err(parse_back_message(d)),
                None => {
                    let kept = without_file(es, slash_text(parts));
                    Ok(
                        match parsed.0 {
                            Some(x) => kept.push(x),
                            None => kept,
                        },
                    )
                },
            }
        },
    }
}

/// The edits applied in order; the first that does not parse back stops them.
pub open spec fn apply_edits(es: Seq<EntityV>, edits: Seq<EditV>) -> Result<Seq<EntityV>, Seq<char>>
    decreases edits.len(),
{
    if edits.len() == 0 {
        Ok(es)
    } else {
        match apply_edits(es, edits.drop_last()) {
            Err(m) => Err(m),
            Ok(cur) => apply_one(cur, edits.last()),
        }
    }
}

/// The errors among the findings, rendered, in order.
pub open spec fn error_lines(ds: Seq<DiagnosticV>) -> Seq<Seq<char>>
    decreases ds.len(),
{
    if ds.len() == 0 {
        seq![]
    } else {
        error_lines(ds.drop_last()) + if ds.last().severity == Severity::Error {
            seq![render_text(ds.last())]
        } else {
            seq![]
        }
    }
}

/// The lines that are not among `base`, in order.
pub open spec fn fresh_lines(lines: Seq<Seq<char>>, base: Seq<Seq<char>>) -> Seq<Seq<char>>
    decreases lines.len(),
{
    if lines.len() == 0 {
        seq![]
    } else {
        fresh_lines(lines.drop_last(), base) + if base.contains(lines.last()) {
            seq![]
        } else {
            seq![lines.last()]
        }
    }
}

/// How a refusal of an entity operation begins.
pub open spec fn operation_lead() -> Seq<char> {
    "refused — the operation would introduce errors:\n"@
}

/// How a refusal of a schema change begins.
pub open spec fn constitution_lead() -> Seq<char> {
    "refused — the constitutional change would introduce errors:\n"@
}

/// Accepted exactly when every error after the change was there before;
/// else refused, listing the new errors after `lead`.
pub open spec fn verdict(lead: Seq<char>, before: Seq<DiagnosticV>, after: Seq<DiagnosticV>) -> Result<(), Seq<char>> {
    let fresh = fresh_lines(error_lines(after), error_lines(before));
    if fresh.len() == 0 {
        Ok(())
    } else {
        Err(lead + crate::summary::join_with(fresh, "\n"@))
    }
}

/// Validating `v` against `files` finds `ds`.
pub open spec fn validates_to(v: Vault, files: Seq<Seq<char>>, ds: Seq<DiagnosticV>) -> bool {
    exists|t: Seq<(usize, usize)>, found: Seq<(usize, Seq<usize>)>| #[trigger] report_ok(v, files, t, found, ds)
}

/// `sim` is `current` with its entities replaced by `es` and no load findings.
pub open spec fn copy_with(current: Vault, sim: Vault, es: Seq<EntityV>) -> bool {
    &&& sim.dir@ == current.dir@
    &&& sim.project_root@ == current.project_root@
    &&& sim.schema@ == current.schema@
    &&& entities_view(sim.entities@) == es
    &&& sim.load_diags@.len() == 0
}

pub open spec fn unit_view(r: Result<(), String>) -> Result<(), Seq<char>> {
    match r {
        Ok(_) => Ok(()),
        Err(m) => Err(m@),
    }
}

fn drop_file(es: Vec<Entity>, rel: &str) -> (r: Vec<Entity>)
    ensures
        entities_view(r@) == without_file(entities_view(es@), rel@),
{
    let ghost ev = entities_view(es@);
    let mut out: Vec<Entity> = Vec::new();
    let mut es = es;
    let n = es.len();
    let mut i: usize = 0;
    while i < n
        invariant
            n == es.len(),
            i <= n,
            ev == entities_view(es@),
            entities_view(out@) == without_file(ev.take(i as int), rel@),
        decreases n - i,
    {
        proof {
            assert(ev.take(i + 1).drop_last() =~= ev.take(i as int));
            assert(ev[i as int] == es@[i as int]@);
        }
        if !crate::text::str_eq(es[i].file.as_str(), rel) {
            out.push(es[i].duplicate());
            proof {
                assert(entities_view(out@) =~= entities_view(out@.drop_last()).push(out@.last()@));
            }
        }
        i = i + 1;
    }
    proof {
        assert(ev.take(n as int) =~= ev);
    }
    out
}

fn find_error(ds: &Vec<Diagnostic>) -> (r: Option<usize>)
    ensures
        match r {
            Some(i) => i < ds@.len() && first_error(diags_view(ds@)) == Some(ds@[i as int]@),
            None => first_error(diags_view(ds@)) is None,
        },
{
    let ghost dv = diags_view(ds@);
    let mut i: usize = 0;
    assert(dv.skip(0) =~= dv);
    while i < ds.len()
        invariant
            i <= ds.len(),
            dv == diags_view(ds@),
            first_error(dv) == first_error(dv.skip(i as int)),
        decreases ds.len() - i,
    {
        proof {
            assert(dv.skip(i as int)[0] == ds@[i as int]@);
            assert(dv.skip(i as int).drop_first() =~= dv.skip(i + 1));
        }
        if ds[i].severity == Severity::Error {
            return Some(i);
        }
        i = i + 1;
    }
    proof {
        assert(dv.skip(i as int).len() == 0);
    }
    None
}

fn rendered_errors(ds: &Vec<Diagnostic>) -> (r: Vec<String>)
    ensures
        strs(r@) == error_lines(diags_view(ds@)),
{
    let ghost dv = diags_view(ds@);
    let mut out: Vec<String> = Vec::new();
    let mut i: usize = 0;
    while i < ds.len()
        invariant
            i <= ds.len(),
            dv == diags_view(ds@),
            strs(out@) == error_lines(dv.take(i as int)),
        decreases ds.len() - i,
    {
        proof {
            assert(dv.take(i + 1).drop_last() =~= dv.take(i as int));
            assert(dv.take(i + 1).last() == ds@[i as int]@);
        }
        if ds[i].severity == Severity::Error {
            out.push(ds[i].render());
            proof {
                assert(strs(out@) =~= strs(out@.drop_last()).push(out@.last()@));
            }
        } else {
            proof {
                assert(error_lines(dv.take(i + 1)) =~= error_lines(dv.take(i as int)));
            }
        }
        i = i + 1;
    }
    proof {
        assert(dv.take(i as int) =~= dv);
    }
    out
}

fn among(base: &Vec<String>, s: &str) -> (r: bool)
    ensures
        r == strs(base@).contains(s@),
{
    let mut i: usize = 0;
    while i < base.len()
        invariant
            i <= base.len(),
            forall|j: int| 0 <= j < i ==> base@[j]@ != s@,
        decreases base.len() - i,
    {
        if crate::text::str_eq(base[i].as_str(), s) {
            assert(strs(base@)[i as int] == s@);
            return true;
        }
        i = i + 1;
    }
    proof {
        if strs(base@).contains(s@) {
            let j = choose|j: int| 0 <= j < strs(base@).len() && strs(base@)[j] == s@;
            assert(base@[j]@ == s@);
        }
    }
    false
}

fn fresh_of(lines: &Vec<String>, base: &Vec<String>) -> (r: Vec<String>)
    ensures
        strs(r@) == fresh_lines(strs(lines@), strs(base@)),
{
    let ghost lv = strs(lines@);
    let mut out: Vec<String> = Vec::new();
    let mut i: usize = 0;
    while i < lines.len()
        invariant
            i <= lines.len(),
            lv == strs(lines@),
            strs(out@) == fresh_lines(lv.take(i as int), strs(base@)),
        decreases lines.len() - i,
    {
        proof {
            assert(lv.take(i + 1).drop_last() =~= lv.take(i as int));
            assert(lv.take(i + 1).last() == lines@[i as int]@);
        }
        if !among(base, lines[i].as_str()) {
            out.push(lines[i].clone());
            proof {
                assert(strs(out@) =~= strs(out@.drop_last()).push(out@.last()@));
            }
        } else {
            proof {
                assert(fresh_lines(lv.take(i + 1), strs(base@)) =~= fresh_lines(lv.take(i as int), strs(base@)));
            }
        }
        i = i + 1;
    }
    proof {
        assert(lv.take(i as int) =~= lv);
    }
    out
}

fn duplicate_entities(es: &Vec<Entity>) -> (r: Vec<Entity>)
    ensures
        entities_view(r@) == entities_view(es@),
{
    let mut out: Vec<Entity> = Vec::new();
    let mut i: usize = 0;
    while i < es.len()
        invariant
            i <= es.len(),
            out@.len() == i,
            forall|j: int| 0 <= j < i ==> (#[trigger] out@[j])@ == es@[j]@,
        decreases es.len() - i,
    {
        out.push(es[i].duplicate());
        i = i + 1;
    }
    assert(entities_view(out@) =~= entities_view(es@));
    out
}

/// Apply `edits` to a copy of `current` and validate it against the
/// project's files: refused when a written file would not parse back, or
/// when the copy has an error that `current` does not.
pub fn simulate(current: &Vault, edits: &Vec<Edit>, project_files: &Vec<String>) -> (r: Result<(), String>)
    ensures
        match apply_edits(entities_view(current.entities@), edits_view(edits@)) {
            Err(m) => unit_view(r) == Err::<(), Seq<char>>(m),
            Ok(es) => exists|before: Seq<DiagnosticV>, after: Seq<DiagnosticV>, sim: Vault|
                #[trigger] validates_to(*current, strs(project_files@), before) && copy_with(*current, sim, es)
                    && #[trigger] validates_to(sim, strs(project_files@), after) && unit_view(r) == verdict(operation_lead(), before, after),
        },
{
    let before = crate::validate::run(current, project_files);
    let ghost bv = diags_view(before.diags@);
    let base = rendered_errors(&before.diags);
    let ghost ev0 = entities_view(current.entities@);
    let ghost edv = edits_view(edits@);
    let mut es = duplicate_entities(&current.entities);
    let mut k: usize = 0;
    while k < edits.len()
        invariant
            k <= edits.len(),
            ev0 == entities_view(current.entities@),
            edv == edits_view(edits@),
            apply_edits(ev0, edv.take(k as int)) == Ok::<_, Seq<char>>(entities_view(es@)),
        decreases edits.len() - k,
    {
        proof {
            assert(edv.take(k + 1).drop_last() =~= edv.take(k as int));
            assert(edv.take(k + 1).last() == edits@[k as int]@);
        }
        match &edits[k] {
            Edit::Delete { rel } => {
                es = drop_file(es, rel.as_str());
            },
            Edit::Write { parts, raw, fm } => {
                let (pe, ds) = parse_entity(parts, raw.clone(), crate::vault::duplicate_fm_parse(fm));
                match find_error(&ds) {
                    Some(i) => {
                        let m = concat("the write would not parse back: ", ds[i].render().as_str());
                        proof {
                            assert(apply_edits(ev0, edv.take(k + 1)) == Err::<Seq<EntityV>, _>(m@));
                            lemma_apply_stops(ev0, edv, (k + 1) as nat);
                            assert(edv.take(edv.len() as int) =~= edv);
                        }
                        return Err(m);
                    },
                    None => {},
                }
                let file = slash_join(parts);
                es = drop_file(es, file.as_str());
                match pe {
                    Some(e) => {
                        let ghost old = entities_view(es@);
                        es.push(e);
                        proof {
                            assert(entities_view(es@) =~= old.push(es@.last()@));
                        }
                    },
                    None => {},
                }
            },
        }
        k = k + 1;
    }
    proof {
        assert(edv.take(k as int) =~= edv);
    }
    let sim = Vault {
        dir: current.dir.clone(),
        project_root: current.project_root.clone(),
        schema: current.schema.duplicate(),
        entities: es,
        load_diags: Vec::new(),
    };
    let after = crate::validate::run(&sim, project_files);
    let r = judge(&base, &after.diags, "refused — the operation would introduce errors:\n");
    proof {
        let files = strs(project_files@);
        let av = diags_view(after.diags@);
        assert(validates_to(*current, files, bv));
        assert(validates_to(sim, files, av));
        assert(copy_with(*current, sim, entities_view(sim.entities@)));
    }
    r
}

fn judge(base: &Vec<String>, after: &Vec<Diagnostic>, lead: &str) -> (r: Result<(), String>)
    ensures
        forall|before: Seq<DiagnosticV>| strs(base@) == error_lines(before) ==> unit_view(r) == verdict(lead@, before, diags_view(after@)),
{
    let lines = rendered_errors(after);
    let fresh = fresh_of(&lines, base);
    if fresh.len() == 0 {
        Ok(())
    } else {
        let m = concat(lead, crate::summary::join_strings(&fresh, "\n").as_str());
        Err(m)
    }
}

/// Some entity of `ms` has identity `r`.
pub open spec fn has_ref(ms: Seq<EntityV>, r: (Seq<char>, Seq<char>, Seq<char>)) -> bool {
    exists|i: int| 0 <= i < ms.len() && (#[trigger] ms[i]).eref == r
}

/// The entities a schema change leaves alone: neither in a removed file nor
/// rewritten.
pub open spec fn kept_for(es: Seq<EntityV>, ms: Seq<EntityV>, deleted: Seq<Seq<char>>) -> Seq<EntityV>
    decreases es.len(),
{
    if es.len() == 0 {
        seq![]
    } else {
        let before = kept_for(es.drop_last(), ms, deleted);
        if deleted.contains(es.last().file) || has_ref(ms, es.last().eref) {
            before
        } else {
            before.push(es.last())
        }
    }
}

/// `sim` is `current` under schema `schema` with entities `es` and no load
/// findings.
pub open spec fn schema_copy_with(current: Vault, sim: Vault, schema: crate::model::SchemaV, es: Seq<EntityV>) -> bool {
    &&& sim.dir@ == current.dir@
    &&& sim.project_root@ == current.project_root@
    &&& sim.schema@ == schema
    &&& entities_view(sim.entities@) == es
    &&& sim.load_diags@.len() == 0
}

fn has_entity(ms: &Vec<Entity>, r: &crate::model::EntityRef) -> (b: bool)
    ensures
        b == has_ref(entities_view(ms@), r@),
{
    let mut i: usize = 0;
    while i < ms.len()
        invariant
            i <= ms.len(),
            forall|j: int| 0 <= j < i ==> ms@[j]@.eref != r@,
        decreases ms.len() - i,
    {
        if ms[i].eref.same(r) {
            assert(entities_view(ms@)[i as int].eref == r@);
            return true;
        }
        i = i + 1;
    }
    proof {
        if has_ref(entities_view(ms@), r@) {
            let j = choose|j: int| 0 <= j < entities_view(ms@).len() && (#[trigger] entities_view(ms@)[j]).eref == r@;
            assert(ms@[j]@.eref == r@);
        }
    }
    false
}

/// Validate a copy of `current` under the planned schema, with the planned
/// rewrites in place of the entities they rewrite and the removed files
/// gone: refused when the copy has an error that `current` does not.
pub fn simulate_schema(current: &Vault, plan: &crate::schema_ops::SchemaPlan, project_files: &Vec<String>) -> (r: Result<(), String>)
    ensures
        exists|before: Seq<DiagnosticV>, after: Seq<DiagnosticV>, sim: Vault|
            #[trigger] validates_to(*current, strs(project_files@), before) && schema_copy_with(
                *current,
                sim,
                plan.schema@,
                kept_for(entities_view(current.entities@), entities_view(plan.mutated@), strs(plan.deleted@))
                    + entities_view(plan.mutated@),
            ) && #[trigger] validates_to(sim, strs(project_files@), after) && unit_view(r) == verdict(
                constitution_lead(),
                before,
                after,
            ),
{
    let before = crate::validate::run(current, project_files);
    let ghost bv = diags_view(before.diags@);
    let base = rendered_errors(&before.diags);
    let es = &current.entities;
    let ghost ev = entities_view(es@);
    let ghost mv = entities_view(plan.mutated@);
    let ghost dv = strs(plan.deleted@);
    let mut kept: Vec<Entity> = Vec::new();
    let mut i: usize = 0;
    while i < es.len()
        invariant
            i <= es.len(),
            ev == entities_view(es@),
            mv == entities_view(plan.mutated@),
            dv == strs(plan.deleted@),
            entities_view(kept@) == kept_for(ev.take(i as int), mv, dv),
        decreases es.len() - i,
    {
        proof {
            assert(ev.take(i + 1).drop_last() =~= ev.take(i as int));
            assert(ev[i as int] == es@[i as int]@);
        }
        let gone = crate::model::list_contains(&plan.deleted, es[i].file.as_str()) || has_entity(&plan.mutated, &es[i].eref);
        if !gone {
            let ghost ok = entities_view(kept@);
            kept.push(es[i].duplicate());
            proof {
                assert(entities_view(kept@) =~= ok.push(es@[i as int]@));
            }
        }
        i = i + 1;
    }
    proof {
        assert(ev.take(i as int) =~= ev);
    }
    let mut j: usize = 0;
    let ghost kv = entities_view(kept@);
    while j < plan.mutated.len()
        invariant
            j <= plan.mutated.len(),
            mv == entities_view(plan.mutated@),
            entities_view(kept@) == kv + mv.take(j as int),
        decreases plan.mutated.len() - j,
    {
        let ghost ok = entities_view(kept@);
        kept.push(plan.mutated[j].duplicate());
        proof {
            assert(entities_view(kept@) =~= ok.push(mv[j as int]));
            assert(kv + mv.take(j + 1) =~= (kv + mv.take(j as int)).push(mv[j as int]));
        }
        j = j + 1;
    }
    proof {
        assert(mv.take(j as int) =~= mv);
    }
    let sim = Vault {
        dir: current.dir.clone(),
        project_root: current.project_root.clone(),
        schema: plan.schema.duplicate(),
        entities: kept,
        load_diags: Vec::new(),
    };
    let after = crate::validate::run(&sim, project_files);
    let r = judge(&base, &after.diags, "refused — the constitutional change would introduce errors:\n");
    proof {
        let files = strs(project_files@);
        let av = diags_view(after.diags@);
        assert(validates_to(*current, files, bv));
        assert(validates_to(sim, files, av));
    }
    r
}

/// The check accepts the edits exactly when every error of the edited vault
/// was already an error of the vault before: new errors refuse, old ones
/// (a vault already broken) do not.
pub proof fn lemma_verdict_accepts(lead: Seq<char>, before: Seq<DiagnosticV>, after: Seq<DiagnosticV>)
    ensures
        verdict(lead, before, after) is Ok <==> forall|i: int|
            0 <= i < error_lines(after).len() ==> error_lines(before).contains(#[trigger] error_lines(after)[i]),
{
    lemma_fresh_empty(error_lines(after), error_lines(before));
}

proof fn lemma_fresh_empty(lines: Seq<Seq<char>>, base: Seq<Seq<char>>)
    ensures
        fresh_lines(lines, base).len() == 0 <==> forall|i: int| 0 <= i < lines.len() ==> base.contains(#[trigger] lines[i]),
    decreases lines.len(),
{
    if lines.len() > 0 {
        lemma_fresh_empty(lines.drop_last(), base);
        if fresh_lines(lines, base).len() == 0 {
            assert forall|i: int| 0 <= i < lines.len() implies base.contains(#[trigger] lines[i]) by {
                if i < lines.len() - 1 {
                    assert(lines.drop_last()[i] == lines[i]);
                }
            }
        }
        if forall|i: int| 0 <= i < lines.len() ==> base.contains(#[trigger] lines[i]) {
            assert forall|i: int| 0 <= i < lines.drop_last().len() implies base.contains(#[trigger] lines.drop_last()[i]) by {
                assert(lines.drop_last()[i] == lines[i]);
            }
            assert(base.contains(lines[lines.len() - 1]));
        }
    }
}

/// Once an edit fails to parse back, the later ones change nothing.
proof fn lemma_apply_stops(es: Seq<EntityV>, edits: Seq<EditV>, k: nat)
    requires
        k <= edits.len(),
        apply_edits(es, edits.take(k as int)) is Err,
    ensures
        apply_edits(es, edits) == apply_edits(es, edits.take(k as int)),
    decreases edits.len() - k,
{
    if k < edits.len() {
        assert(edits.take(k as int + 1).drop_last() =~= edits.take(k as int));
        lemma_apply_stops(es, edits, k + 1);
    } else {
        assert(edits.take(k as int) =~= edits);
    }
}

} // verus!
