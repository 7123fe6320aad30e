//! The write operations. Each follows one transactional shape: checks
//! against the live vault, a plan of file changes, a re-validation of the
//! vault as the plan would leave it (refused on any new error), and only
//! then the writes. Frontmatter is machine-owned; a body changes only by an
//! explicit body edit.
//!
//! This module decides: what each operation checks, which files it writes
//! or deletes with which frontmatter and body, what it reports, and whether
//! a plan is accepted. Turning frontmatter into YAML and back, and touching
//! the disk, are left to the caller.

use vstd::prelude::*;
use crate::diag::{diags_view, Diagnostic, Severity};
use crate::model::{canonical, strs, Entity, EntityRef, FrontMatter, RelEntry, RelationDecl};
use crate::text::{concat, concat3, owned, str_eq, string_of_range};
use crate::validate::{did_you_mean, did_you_mean_spec, refs_view, tallied_refs, tally_ok_refs};
use crate::vault::Vault;

verus! {

// ───────────────────────────── refs in files ─────────────────────────────

/// The elided form of a ref, the house style for refs written into files:
/// `kind:name` in the default namespace, else `kind:ns/name`.
pub open spec fn elided(r: (Seq<char>, Seq<char>, Seq<char>)) -> Seq<char> {
    if r.1 == crate::model::DEFAULT_NS@ {
        r.0 + ":"@ + r.2
    } else {
        canonical(r)
    }
}

/// Elided display form: the default namespace left out.
pub fn elide(r: &EntityRef) -> (s: String)
    ensures
        s@ == elided(r@),
{
    if str_eq(r.ns.as_str(), crate::model::DEFAULT_NS) {
        let mut s = concat(r.kind.as_str(), ":");
        s.append(r.name.as_str());
        s
    } else {
        r.to_string()
    }
}

/// A ref of valid, NFC-normalized words reads back from its elided form and
/// from its canonical form as itself.
pub proof fn lemma_elided_parses_back(r: (Seq<char>, Seq<char>, Seq<char>))
    requires
        crate::model::is_valid_word(r.0),
        crate::model::is_valid_word(r.1),
        crate::model::is_valid_word(r.2),
        crate::model::nfc_of(r.0) == r.0,
        crate::model::nfc_of(r.1) == r.1,
        crate::model::nfc_of(r.2) == r.2,
    ensures
        crate::model::parse_ref(elided(r)) == Ok::<_, Seq<char>>(r),
        crate::model::parse_ref(canonical(r)) == Ok::<_, Seq<char>>(r),
{
    assert forall|i: int| 0 <= i < r.0.len() implies r.0[i] != ':' by {
        assert(crate::model::is_word_char(r.0[i]));
    }
    assert forall|i: int| 0 <= i < r.1.len() implies r.1[i] != '/' by {
        assert(crate::model::is_word_char(r.1[i]));
    }
    assert forall|i: int| 0 <= i < r.2.len() implies r.2[i] != '/' by {
        assert(crate::model::is_word_char(r.2[i]));
    }
    let tail = r.1 + seq!['/'] + r.2;
    assert(canonical(r) =~= r.0 + (seq![':'] + tail));
    crate::text::lemma_first_index_after(r.0, seq![':'] + tail, ':');
    assert((r.0 + (seq![':'] + tail)).take(r.0.len() as int) =~= r.0);
    assert((r.0 + (seq![':'] + tail)).skip(r.0.len() as int + 1) =~= tail);
    assert(tail =~= r.1 + (seq!['/'] + r.2));
    crate::text::lemma_first_index_after(r.1, seq!['/'] + r.2, '/');
    assert(tail.take(r.1.len() as int) =~= r.1);
    assert(tail.skip(r.1.len() as int + 1) =~= r.2);
    if r.1 == crate::model::DEFAULT_NS@ {
        reveal_strlit(":");
        assert(elided(r) =~= r.0 + (seq![':'] + r.2));
        crate::text::lemma_first_index_after(r.0, seq![':'] + r.2, ':');
        assert((r.0 + (seq![':'] + r.2)).take(r.0.len() as int) =~= r.0);
        assert((r.0 + (seq![':'] + r.2)).skip(r.0.len() as int + 1) =~= r.2);
        crate::text::lemma_first_index_none(r.2, '/');
    }
}

/// The vault-relative path of an entity's file.
pub open spec fn entity_path_text(r: (Seq<char>, Seq<char>, Seq<char>)) -> Seq<char> {
    if r.1 == crate::model::DEFAULT_NS@ {
        r.0 + "/"@ + r.2 + ".md"@
    } else {
        r.0 + "/"@ + r.1 + "/"@ + r.2 + ".md"@
    }
}

/// The components of an entity's vault-relative path.
pub open spec fn path_parts_text(r: (Seq<char>, Seq<char>, Seq<char>)) -> Seq<Seq<char>> {
    if r.1 == crate::model::DEFAULT_NS@ {
        seq![r.0, r.2 + ".md"@]
    } else {
        seq![r.0, r.1, r.2 + ".md"@]
    }
}

/// The path is the identity: an entity written where `entity_path` puts it
/// is read back under its own ref.
pub proof fn lemma_path_is_identity(r: (Seq<char>, Seq<char>, Seq<char>))
    requires
        crate::model::nfc_of(r.0) == r.0,
        crate::model::nfc_of(r.1) == r.1,
        crate::model::nfc_of(r.2) == r.2,
    ensures
        crate::vault::slash_text(path_parts_text(r)) == entity_path_text(r),
        crate::vault::path_identity(path_parts_text(r)) == r,
{
    reveal_strlit(".md");
    reveal_strlit("/");
    let f = r.2 + ".md"@;
    assert(f.skip(f.len() - 3) =~= seq!['.', 'm', 'd']);
    assert(f.take(f.len() - 3) =~= r.2);
    assert(crate::vault::stem_text(f) == r.2);
    let parts = path_parts_text(r);
    assert("/"@ =~= seq!['/']);
    assert(crate::vault::slash_text(seq![r.0]) == r.0);
    if r.1 == crate::model::DEFAULT_NS@ {
        assert(parts.drop_last() =~= seq![r.0]);
        assert(crate::vault::slash_text(parts) == crate::vault::slash_text(seq![r.0]) + seq!['/'] + f);
        assert(crate::vault::slash_text(parts) =~= entity_path_text(r));
    } else {
        assert(parts.drop_last() =~= seq![r.0, r.1]);
        assert(seq![r.0, r.1].drop_last() =~= seq![r.0]);
        assert(crate::vault::slash_text(seq![r.0, r.1]) == r.0 + seq!['/'] + r.1);
        assert(crate::vault::slash_text(parts) == crate::vault::slash_text(seq![r.0, r.1]) + seq!['/'] + f);
        assert(crate::vault::slash_text(parts) =~= entity_path_text(r));
    }
}

/// The vault-relative path of an entity's file: `kind/name.md`, or
/// `kind/ns/name.md` outside the default namespace.
pub fn entity_path(r: &EntityRef) -> (p: String)
    ensures
        p@ == entity_path_text(r@),
{
    let mut p = concat(r.kind.as_str(), "/");
    if !str_eq(r.ns.as_str(), crate::model::DEFAULT_NS) {
        p.append(r.ns.as_str());
        p.append("/");
    }
    p.append(r.name.as_str());
    p.append(".md");
    p
}

/// The path components of an entity's file.
pub fn entity_path_parts(r: &EntityRef) -> (p: Vec<String>)
    ensures
        strs(p@) == path_parts_text(r@),
{
    let mut p: Vec<String> = Vec::new();
    p.push(r.kind.clone());
    if !str_eq(r.ns.as_str(), crate::model::DEFAULT_NS) {
        p.push(r.ns.clone());
    }
    p.push(concat(r.name.as_str(), ".md"));
    proof {
        if r@.1 == crate::model::DEFAULT_NS@ {
            assert(strs(p@) =~= seq![r@.0, r@.2 + ".md"@]);
        } else {
            assert(strs(p@) =~= seq![r@.0, r@.1, r@.2 + ".md"@]);
        }
    }
    p
}

// ───────────────────────────── entity files ─────────────────────────────

/// Frontmatter with nothing to write: the file is the body alone.
pub open spec fn fm_is_bare(fm: crate::model::FrontMatterV) -> bool {
    &&& fm.title is None
    &&& fm.tags.len() == 0
    &&& fm.lifecycle is None
    &&& fm.relations.len() == 0
    &&& fm.source.len() == 0
    &&& fm.extra.len() == 0
}

/// Does the frontmatter have nothing to write?
pub fn frontmatter_is_bare(fm: &FrontMatter) -> (r: bool)
    ensures
        r == fm_is_bare(fm@),
{
    fm.title.is_none() && fm.tags.len() == 0 && fm.lifecycle.is_none() && fm.relations.len() == 0
        && fm.source.len() == 0 && fm.extra.len() == 0
}

/// An entity file: the frontmatter's YAML (none when there is nothing to
/// write) between `---` fences, then the body without trailing whitespace.
pub open spec fn framed(yaml: Option<Seq<char>>, body: Seq<char>) -> Seq<char> {
    let b = crate::text::trim_end(body);
    match yaml {
        None => if b.len() == 0 {
            seq![]
        } else {
            b + "\n"@
        },
        Some(y) => "---\n"@ + y + "---\n"@ + b + "\n"@,
    }
}

/// Frame an entity file from its frontmatter YAML and its body.
pub fn frame_entity(yaml: Option<&str>, body: &str) -> (r: String)
    ensures
        r@ == framed(crate::query::opt_str(yaml), body@),
{
    let b = crate::text::trimmed_end(body);
    match yaml {
        None => {
            if crate::text::blank(b.as_str()) {
                proof {
                    crate::text::lemma_trim_blank(body@);
                }
                if b.as_str().is_empty() {
                    String::new()
                } else {
                    concat(b.as_str(), "\n")
                }
            } else {
                concat(b.as_str(), "\n")
            }
        },
        Some(y) => {
            let mut s = concat3("---\n", y, "---\n");
            s.append(b.as_str());
            s.append("\n");
            s
        },
    }
}


// ───────────────────────────── checks ─────────────────────────────

pub open spec fn missing_message(p: (Seq<char>, Seq<char>, Seq<char>), hint: Option<Seq<char>>) -> Seq<char> {
    match hint {
        Some(s) => "no such entity: "@ + canonical(p) + " — did you mean "@ + s + "?"@,
        None => "no such entity: "@ + canonical(p) + " (try `laplace query search "@ + p.2 + "`)"@,
    }
}

/// What user input resolves to, against the vault's refs in order.
pub open spec fn resolve_spec(v: Vault, input: Seq<char>, refs: Seq<(Seq<char>, Seq<char>, Seq<char>)>) -> Result<
    (Seq<char>, Seq<char>, Seq<char>),
    Seq<char>,
> {
    match crate::model::parse_ref(input) {
        Err(m) => Err(m),
        Ok(p) => if v.entity_index(p) is Some {
            Ok(p)
        } else {
            Err(missing_message(p, did_you_mean_spec(p, refs)))
        },
    }
}

pub open spec fn ref_result(r: Result<EntityRef, String>) -> Result<(Seq<char>, Seq<char>, Seq<char>), Seq<char>> {
    match r {
        Ok(e) => Ok(e@),
        Err(m) => Err(m@),
    }
}

/// Resolve user input to an entity of the vault; when nothing has that
/// identity, the error suggests what was likely meant.
pub fn resolve(vault: &Vault, input: &str) -> (r: Result<EntityRef, String>)
    ensures
        exists|t: Seq<(usize, usize)>|
            #[trigger] tally_ok_refs(vault.entities@, t) && ref_result(r) == resolve_spec(
                *vault,
                input@,
                tallied_refs(vault.entities@, t),
            ),
{
    let (refs, t) = crate::validate::sorted_refs(&vault.entities);
    let r = resolve_with(vault, &refs, input);
    proof {
        assert(tally_ok_refs(vault.entities@, t@));
    }
    r
}

/// Resolve user input, suggesting among `refs` (in their order) on failure.
pub fn resolve_with(vault: &Vault, refs: &Vec<EntityRef>, input: &str) -> (r: Result<EntityRef, String>)
    ensures
        ref_result(r) == resolve_spec(*vault, input@, refs_view(refs@)),
{
    let r = match EntityRef::parse(input) {
        Err(m) => Err(m),
        Ok(p) => {
            if vault.get(&p).is_some() {
                Ok(p)
            } else {
                let mut m = concat("no such entity: ", p.to_string().as_str());
                match did_you_mean(&p, &refs) {
                    Some(s) => {
                        m.append(" — did you mean ");
                        m.append(s.as_str());
                        m.append("?");
                    },
                    None => {
                        m.append(" (try `laplace query search ");
                        m.append(p.name.as_str());
                        m.append("`)");
                    },
                }
                Err(m)
            }
        },
    };
    r
}

/// Among the first `k` keys, the first within edit distance 2 of `rel`.
pub open spec fn first_close(keys: Seq<Seq<char>>, rel: Seq<char>, k: nat) -> Option<int>
    decreases k,
{
    if k == 0 {
        None
    } else {
        match first_close(keys, rel, (k - 1) as nat) {
            Some(i) => Some(i),
            None => if crate::model::capped_distance(keys[k - 1], rel, 2) <= 2 {
                Some((k - 1) as int)
            } else {
                None
            },
        }
    }
}

proof fn lemma_first_close_stable(keys: Seq<Seq<char>>, rel: Seq<char>, k: nat, m: nat)
    requires
        k <= m,
        first_close(keys, rel, k) is Some,
    ensures
        first_close(keys, rel, m) == first_close(keys, rel, k),
    decreases m,
{
    if m > k {
        lemma_first_close_stable(keys, rel, k, (m - 1) as nat);
    }
}

pub open spec fn undeclared_relation_message(rel: Seq<char>, keys: Seq<Seq<char>>) -> Seq<char> {
    "relation type `"@ + rel + "` is not declared"@ + match first_close(keys, rel, keys.len()) {
        Some(i) => " — did you mean `"@ + keys[i] + "`?"@,
        None => " (declare it first: `laplace schema add-relation`)"@,
    }
}

/// The position of relation type `rel` in the schema, or why it is not there.
pub open spec fn relation_check(s: crate::model::Schema, rel: Seq<char>) -> Result<int, Seq<char>> {
    match crate::model::key_index(crate::model::keys_of(s.relations@), rel) {
        Some(i) => Ok(i),
        None => Err(undeclared_relation_message(rel, crate::model::keys_of(s.relations@))),
    }
}

/// The declaration of relation type `rel`, by position.
pub fn check_relation(vault: &Vault, rel: &str) -> (r: Result<usize, String>)
    ensures
        match r {
            Ok(i) => relation_check(vault.schema, rel@) == Ok::<int, Seq<char>>(i as int) && i < vault.schema.relations@.len(),
            Err(m) => relation_check(vault.schema, rel@) == Err::<int, Seq<char>>(m@),
        },
{
    match crate::model::find_key(&vault.schema.relations, rel) {
        Some(i) => {
            proof {
                assert(crate::model::key_index(crate::model::keys_of(vault.schema.relations@), rel@) == Some(i as int));
                assert(relation_check(vault.schema, rel@) == Ok::<int, Seq<char>>(i as int));
            }
            Ok(i)
        },
        None => {
            let ghost keys = crate::model::keys_of(vault.schema.relations@);
            let mut k: usize = 0;
            let mut close: Option<usize> = None;
            while k < vault.schema.relations.len()
                invariant_except_break
                    close is None,
                invariant
                    k <= vault.schema.relations@.len(),
                    keys == crate::model::keys_of(vault.schema.relations@),
                    close is None ==> first_close(keys, rel@, k as nat) is None,
                ensures
                    match close {
                        Some(i) => first_close(keys, rel@, keys.len()) == Some(i as int) && i < keys.len(),
                        None => first_close(keys, rel@, keys.len()) is None,
                    },
                decreases vault.schema.relations.len() - k,
            {
                proof {
                    assert(keys[k as int] == vault.schema.relations@[k as int].0@);
                }
                if crate::model::levenshtein_capped(vault.schema.relations[k].0.as_str(), rel, 2) <= 2 {
                    close = Some(k);
                    proof {
                        lemma_first_close_stable(keys, rel@, (k + 1) as nat, keys.len());
                    }
                    break;
                }
                k = k + 1;
            }
            let mut m = concat3("relation type `", rel, "` is not declared");
            match close {
                Some(i) => {
                    m.append(" — did you mean `");
                    m.append(vault.schema.relations[i].0.as_str());
                    m.append("`?");
                },
                None => {
                    m.append(" (declare it first: `laplace schema add-relation`)");
                },
            }
            proof {
                match close {
                    Some(i) => {
                        assert(keys[i as int] == vault.schema.relations@[i as int].0@);
                    },
                    None => {},
                }
                assert(m@ =~= undeclared_relation_message(rel@, keys));
            }
            Err(m)
        },
    }
}


pub open spec fn from_refusal(rel: Seq<char>, from: Seq<Seq<char>>, kind: Seq<char>) -> Seq<char> {
    "bad-endpoint: `"@ + rel + "` edges start from "@ + crate::validate::debug_text(from) + ", not from kind `"@ + kind + "`"@
}

pub open spec fn to_refusal(rel: Seq<char>, to: Seq<Seq<char>>, kind: Seq<char>) -> Seq<char> {
    "bad-endpoint: `"@ + rel + "` edges point at "@ + crate::validate::debug_text(to) + ", not at kind `"@ + kind + "`"@
}

/// May an edge of type `rel` join these kinds?
pub open spec fn endpoint_check(s: crate::model::Schema, rel: Seq<char>, from_kind: Seq<char>, to_kind: Seq<char>) -> Result<(), Seq<char>> {
    match relation_check(s, rel) {
        Err(m) => Err(m),
        Ok(i) => {
            let d = s.relations@[i].1@;
            match (d.from, d.to) {
                (Some(f), _) if !f.contains(from_kind) => Err(from_refusal(rel, f, from_kind)),
                (_, Some(t)) if !t.contains(to_kind) => Err(to_refusal(rel, t, to_kind)),
                _ => Ok(()),
            }
        },
    }
}

pub open spec fn unit_result(r: Result<(), String>) -> Result<(), Seq<char>> {
    match r {
        Ok(_) => Ok(()),
        Err(m) => Err(m@),
    }
}

/// Check that an edge of type `rel` may start at `from` and end at `to`.
pub fn check_endpoints(vault: &Vault, rel: &str, from: &EntityRef, to: &EntityRef) -> (r: Result<(), String>)
    ensures
        unit_result(r) == endpoint_check(vault.schema, rel@, from@.0, to@.0),
{
    let i = check_relation(vault, rel)?;
    let decl = &vault.schema.relations[i].1;
    match &decl.from {
        Some(f) => {
            if !crate::model::list_contains(f, from.kind.as_str()) {
                let mut m = concat3("bad-endpoint: `", rel, "` edges start from ");
                m.append(crate::validate::debug_list(f).as_str());
                m.append(", not from kind `");
                m.append(from.kind.as_str());
                m.append("`");
                return Err(m);
            }
        },
        None => {},
    }
    match &decl.to {
        Some(t) => {
            if !crate::model::list_contains(t, to.kind.as_str()) {
                let mut m = concat3("bad-endpoint: `", rel, "` edges point at ");
                m.append(crate::validate::debug_list(t).as_str());
                m.append(", not at kind `");
                m.append(to.kind.as_str());
                m.append("`");
                return Err(m);
            }
        },
        None => {},
    }
    Ok(())
}

/// The entries' targets that parse as refs, elided, in order.
pub open spec fn parsed_targets(entries: Seq<crate::model::RelEntryV>, k: nat) -> Seq<Seq<char>>
    decreases k,
{
    if k == 0 {
        seq![]
    } else {
        let before = parsed_targets(entries, (k - 1) as nat);
        match crate::model::parse_ref(entries[k - 1].target_text()) {
            Ok(r) => before.push(elided(r)),
            Err(_) => before,
        }
    }
}

/// The refs entity `source` states under relation type `rel`, elided.
pub open spec fn edge_list_spec(v: Vault, source: (Seq<char>, Seq<char>, Seq<char>), rel: Seq<char>) -> Seq<Seq<char>> {
    match v.entity_index(source) {
        None => seq![],
        Some(i) => match v.entities@[i].fm.entries_of(rel) {
            None => seq![],
            Some(es) => parsed_targets(es, es.len()),
        },
    }
}

fn elided_targets(entries: &Vec<RelEntry>) -> (r: Vec<String>)
    ensures
        strs(r@) == parsed_targets(crate::model::entries_view(entries@), entries@.len() as nat),
{
    let ghost ev = crate::model::entries_view(entries@);
    let mut out: Vec<String> = Vec::new();
    let mut k: usize = 0;
    while k < entries.len()
        invariant
            k <= entries.len(),
            ev == crate::model::entries_view(entries@),
            strs(out@) == parsed_targets(ev, k as nat),
        decreases entries.len() - k,
    {
        proof {
            assert(ev[k as int] == entries@[k as int]@);
        }
        match EntityRef::parse(entries[k].target()) {
            Ok(r) => {
                out.push(elide(&r));
                proof {
                    assert(strs(out@) =~= strs(out@.drop_last()).push(out@.last()@));
                }
            },
            Err(_) => {},
        }
        k = k + 1;
    }
    out
}

/// The refs `source` states under relation type `rel`, elided.
pub fn edge_list(vault: &Vault, source: &EntityRef, rel: &str) -> (r: Vec<String>)
    ensures
        strs(r@) == edge_list_spec(*vault, source@, rel@),
{
    match vault.get(source) {
        None => Vec::new(),
        Some(e) => {
            proof {
                assert(crate::model::relations_view(e.fm.relations@).map_values(
                    |p: (Seq<char>, Seq<crate::model::RelEntryV>)| p.0,
                ) =~= crate::model::keys_of(e.fm.relations@));
            }
            match crate::model::find_key(&e.fm.relations, rel) {
                None => Vec::new(),
                Some(k) => elided_targets(&e.fm.relations[k].1),
            }
        },
    }
}


// ───────────────────────────── plans ─────────────────────────────

/// A file change: write an entity file (its frontmatter and body), or delete one.
#[derive(Debug)]
pub enum Change {
    Write { rel: String, fm: FrontMatter, body: String },
    Delete { rel: String },
}

pub enum ChangeV {
    Write { rel: Seq<char>, fm: crate::model::FrontMatterV, body: Seq<char> },
    Delete { rel: Seq<char> },
}

impl View for Change {
    type V = ChangeV;

    open spec fn view(&self) -> ChangeV {
        match self {
            Change::Write { rel, fm, body } => ChangeV::Write { rel: rel@, fm: fm@, body: body@ },
            Change::Delete { rel } => ChangeV::Delete { rel: rel@ },
        }
    }
}

pub open spec fn changes_view(v: Seq<Change>) -> Seq<ChangeV> {
    v.map_values(|c: Change| c@)
}

/// What `add` is asked to create.
pub struct AddSpec {
    pub kind: String,
    pub name: String,
    pub namespace: Option<String>,
    pub title: Option<String>,
    pub tags: Vec<String>,
    pub lifecycle: Option<String>,
    pub body: String,
    pub relations: Vec<(String, Vec<RelEntry>)>,
    pub source: Vec<String>,
}

/// A planned `add`: the new entity, its file, its edge count, the change
/// and the report.
#[derive(Debug)]
pub struct AddPlan {
    pub eref: EntityRef,
    pub path: String,
    pub edges: usize,
    pub change: Change,
    pub message: String,
}

/// Every relation entry with its type, in order.
pub open spec fn flat_entries(rels: Seq<(Seq<char>, Seq<crate::model::RelEntryV>)>) -> Seq<(Seq<char>, crate::model::RelEntryV)>
    decreases rels.len(),
{
    if rels.len() == 0 {
        seq![]
    } else {
        flat_entries(rels.drop_last()) + rels.last().1.map_values(|e: crate::model::RelEntryV| (rels.last().0, e))
    }
}

/// One entry of a new entity `eref`: its target must parse, resolve, and
/// suit the relation type's endpoints.
pub open spec fn entry_check(v: Vault, refs: Seq<(Seq<char>, Seq<char>, Seq<char>)>, eref: (Seq<char>, Seq<char>, Seq<char>), rel: Seq<char>, e: crate::model::RelEntryV) -> Result<(), Seq<char>> {
    match crate::model::parse_ref(e.target_text()) {
        Err(m) => Err(m),
        Ok(t) => match resolve_spec(v, e.target_text(), refs) {
            Err(m) => Err(m),
            Ok(_) => endpoint_check(v.schema, rel, eref.0, t.0),
        },
    }
}

/// The first failing entry among the first `k`, else `k`.
pub open spec fn entries_check(v: Vault, refs: Seq<(Seq<char>, Seq<char>, Seq<char>)>, eref: (Seq<char>, Seq<char>, Seq<char>), flat: Seq<(Seq<char>, crate::model::RelEntryV)>, k: nat) -> Result<nat, Seq<char>>
    decreases k,
{
    if k == 0 {
        Ok(0)
    } else {
        match entries_check(v, refs, eref, flat, (k - 1) as nat) {
            Err(m) => Err(m),
            Ok(n) => match entry_check(v, refs, eref, flat[k - 1].0, flat[k - 1].1) {
                Err(m) => Err(m),
                Ok(_) => Ok(n + 1),
            },
        }
    }
}

pub open spec fn add_ref_text(kind: Seq<char>, ns: Option<Seq<char>>, name: Seq<char>) -> Seq<char> {
    let n = match ns {
        Some(x) => x,
        None => crate::model::DEFAULT_NS@,
    };
    crate::model::nfc_of(kind) + ":"@ + crate::model::nfc_of(n) + "/"@ + crate::model::nfc_of(name)
}

pub open spec fn undeclared_kind_message(kind: Seq<char>) -> Seq<char> {
    "kind `"@ + kind + "` is not declared (see `laplace query schema`, or `laplace schema add-kind`)"@
}

pub open spec fn exists_message(e: (Seq<char>, Seq<char>, Seq<char>)) -> Seq<char> {
    canonical(e) + " already exists — did you `laplace query search "@ + e.2 + "` first?"@
}

pub open spec fn nudge_text(s: crate::model::Schema, kind: Seq<char>, body: Seq<char>) -> Seq<char> {
    if crate::text::is_blank(body) {
        match crate::model::key_index(crate::model::keys_of(s.kinds@), kind) {
            Some(i) if s.kinds@[i].1.description is Some => "\n  warning: no body — the body is the entity's prose. Guide for `"@
                + kind + "`: "@ + s.kinds@[i].1.description->0@,
            _ => "\n  warning: no body — the body is the entity's prose"@,
        }
    } else {
        seq![]
    }
}

/// The frontmatter a new entity is written with.
pub open spec fn add_frontmatter(a: AddSpec) -> crate::model::FrontMatterV {
    crate::model::FrontMatterV {
        title: crate::model::opt_text(a.title),
        tags: strs(a.tags@),
        lifecycle: crate::model::opt_text(a.lifecycle),
        relations: crate::model::relations_view(a.relations@),
        source: strs(a.source@),
        kind: None,
        name: None,
        extra: seq![],
    }
}

/// What `add` plans: the entity's ref, path, edge count, change and report;
/// or why it refuses.
pub open spec fn add_spec(v: Vault, refs: Seq<(Seq<char>, Seq<char>, Seq<char>)>, a: AddSpec) -> Result<
    ((Seq<char>, Seq<char>, Seq<char>), Seq<char>, nat, ChangeV, Seq<char>),
    Seq<char>,
> {
    match crate::model::parse_ref(add_ref_text(a.kind@, crate::model::opt_text(a.namespace), a.name@)) {
        Err(m) => Err(m),
        Ok(e) => if !v.schema.declares_kind(e.0) {
            Err(undeclared_kind_message(e.0))
        } else if v.entity_index(e) is Some {
            Err(exists_message(e))
        } else {
            match entries_check(v, refs, e, flat_entries(crate::model::relations_view(a.relations@)), flat_entries(crate::model::relations_view(a.relations@)).len()) {
                Err(m) => Err(m),
                Ok(n) => {
                    let path = entity_path_text(e);
                    let msg = "added "@ + canonical(e) + " at "@ + crate::vault::join_text(v.dir@, path) + " ("@ + crate::diag::decimal(n)
                        + " edges)"@ + nudge_text(v.schema, e.0, a.body@);
                    Ok((e, path, n, ChangeV::Write { rel: path, fm: add_frontmatter(a), body: a.body@ }, msg))
                },
            }
        },
    }
}

pub open spec fn add_plan_view(p: AddPlan) -> ((Seq<char>, Seq<char>, Seq<char>), Seq<char>, nat, ChangeV, Seq<char>) {
    (p.eref@, p.path@, p.edges as nat, p.change@, p.message@)
}

pub open spec fn flat_at(rv: Seq<(Seq<char>, Seq<crate::model::RelEntryV>)>, x: (usize, usize)) -> (Seq<char>, crate::model::RelEntryV) {
    (rv[x.0 as int].0, rv[x.0 as int].1[x.1 as int])
}

/// The positions (group, entry) of every relation entry, in order.
fn flatten_rels(rels: &Vec<(String, Vec<RelEntry>)>) -> (r: Vec<(usize, usize)>)
    ensures
        r@.len() == flat_entries(crate::model::relations_view(rels@)).len(),
        forall|k: int|
            0 <= k < r@.len() ==> (#[trigger] r@[k]).0 < rels@.len() && r@[k].1 < rels@[r@[k].0 as int].1@.len()
                && flat_at(crate::model::relations_view(rels@), r@[k]) == flat_entries(crate::model::relations_view(rels@))[k],
{
    let ghost rv = crate::model::relations_view(rels@);
    let mut out: Vec<(usize, usize)> = Vec::new();
    let mut g: usize = 0;
    while g < rels.len()
        invariant
            g <= rels.len(),
            rv == crate::model::relations_view(rels@),
            out@.len() == flat_entries(rv.take(g as int)).len(),
            forall|k: int|
                0 <= k < out@.len() ==> (#[trigger] out@[k]).0 < g && out@[k].1 < rels@[out@[k].0 as int].1@.len()
                    && flat_at(rv, out@[k]) == flat_entries(rv.take(g as int))[k],
        decreases rels.len() - g,
    {
        let ghost base = flat_entries(rv.take(g as int));
        let ghost grp = rv[g as int];
        let mut j: usize = 0;
        while j < rels[g].1.len()
            invariant
                g < rels.len(),
                j <= rels@[g as int].1@.len(),
                rv == crate::model::relations_view(rels@),
                grp == rv[g as int],
                grp.1.len() == rels@[g as int].1@.len(),
                out@.len() == base.len() + j,
                forall|k: int|
                    0 <= k < out@.len() ==> (#[trigger] out@[k]).0 <= g && out@[k].1 < rels@[out@[k].0 as int].1@.len()
                        && flat_at(rv, out@[k]) == (base + grp.1.take(j as int).map_values(|e: crate::model::RelEntryV| (grp.0, e)))[k],
            decreases rels@[g as int].1@.len() - j,
        {
            let ghost before = out@;
            out.push((g, j));
            proof {
                let m = |e: crate::model::RelEntryV| (grp.0, e);
                assert(grp.1.take(j + 1).map_values(m) =~= grp.1.take(j as int).map_values(m).push((grp.0, grp.1[j as int])));
                assert forall|k: int| 0 <= k < out@.len() implies (#[trigger] out@[k]).0 <= g && out@[k].1 < rels@[out@[k].0 as int].1@.len()
                    && flat_at(rv, out@[k]) == (base + grp.1.take(j + 1).map_values(m))[k] by {
                    if k < before.len() {
                        assert(out@[k] == before[k]);
                        assert((base + grp.1.take(j + 1).map_values(m))[k] == (base + grp.1.take(j as int).map_values(m))[k]);
                    } else {
                        assert(out@[k] == (g, j));
                    }
                }
            }
            j = j + 1;
        }
        proof {
            let m = |e: crate::model::RelEntryV| (grp.0, e);
            assert(grp.1.take(grp.1.len() as int) =~= grp.1);
            assert(rv.take(g + 1).drop_last() =~= rv.take(g as int));
            assert(rv.take(g + 1).last() == grp);
            assert(flat_entries(rv.take(g + 1)) =~= base + grp.1.map_values(m));
        }
        g = g + 1;
    }
    proof {
        assert(rv.take(rels@.len() as int) =~= rv);
    }
    out
}

proof fn lemma_entries_check_prefix(
    v: Vault,
    refs: Seq<(Seq<char>, Seq<char>, Seq<char>)>,
    eref: (Seq<char>, Seq<char>, Seq<char>),
    f: Seq<(Seq<char>, crate::model::RelEntryV)>,
    k: nat,
)
    requires
        k < f.len(),
    ensures
        entries_check(v, refs, eref, f, (k + 1) as nat) == match entries_check(v, refs, eref, f, k) {
            Err(m) => Err(m),
            Ok(n) => match entry_check(v, refs, eref, f[k as int].0, f[k as int].1) {
                Err(m) => Err(m),
                Ok(_) => Ok(n + 1),
            },
        },
{
}

proof fn lemma_entries_check_ok(
    v: Vault,
    refs: Seq<(Seq<char>, Seq<char>, Seq<char>)>,
    eref: (Seq<char>, Seq<char>, Seq<char>),
    f: Seq<(Seq<char>, crate::model::RelEntryV)>,
    k: nat,
)
    requires
        entries_check(v, refs, eref, f, k) is Ok,
    ensures
        entries_check(v, refs, eref, f, k) == Ok::<nat, Seq<char>>(k),
    decreases k,
{
    if k > 0 {
        lemma_entries_check_ok(v, refs, eref, f, (k - 1) as nat);
    }
}

proof fn lemma_entries_check_err(
    v: Vault,
    refs: Seq<(Seq<char>, Seq<char>, Seq<char>)>,
    eref: (Seq<char>, Seq<char>, Seq<char>),
    f: Seq<(Seq<char>, crate::model::RelEntryV)>,
    k: nat,
    m: nat,
)
    requires
        k <= m,
        entries_check(v, refs, eref, f, k) is Err,
    ensures
        entries_check(v, refs, eref, f, m) == entries_check(v, refs, eref, f, k),
    decreases m,
{
    if m > k {
        lemma_entries_check_err(v, refs, eref, f, k, (m - 1) as nat);
    }
}

fn check_entries(
    vault: &Vault,
    refs: &Vec<EntityRef>,
    eref: &EntityRef,
    rels: &Vec<(String, Vec<RelEntry>)>,
) -> (r: Result<usize, String>)
    ensures
        match r {
            Ok(n) => entries_check(*vault, refs_view(refs@), eref@, flat_entries(crate::model::relations_view(rels@)), flat_entries(crate::model::relations_view(rels@)).len()) == Ok::<nat, Seq<char>>(n as nat),
            Err(m) => entries_check(*vault, refs_view(refs@), eref@, flat_entries(crate::model::relations_view(rels@)), flat_entries(crate::model::relations_view(rels@)).len()) == Err::<nat, Seq<char>>(m@),
        },
{
    let ghost rv = crate::model::relations_view(rels@);
    let ghost f = flat_entries(rv);
    let ghost refv = refs_view(refs@);
    let flat = flatten_rels(rels);
    let mut k: usize = 0;
    while k < flat.len()
        invariant
            k <= flat@.len(),
            flat@.len() == f.len(),
            rv == crate::model::relations_view(rels@),
            f == flat_entries(rv),
            refv == refs_view(refs@),
            forall|q: int|
                0 <= q < flat@.len() ==> (#[trigger] flat@[q]).0 < rels@.len() && flat@[q].1 < rels@[flat@[q].0 as int].1@.len()
                    && flat_at(rv, flat@[q]) == f[q],
            entries_check(*vault, refv, eref@, f, k as nat) == Ok::<nat, Seq<char>>(k as nat),
        decreases flat.len() - k,
    {
        let (a, b) = flat[k];
        let rel = rels[a].0.as_str();
        let entry = &rels[a].1[b];
        proof {
            assert(f[k as int] == flat_at(rv, (a, b)));
            assert(rv[a as int].1[b as int] == entry@);
            assert(rv[a as int].0 == rel@);
            lemma_entries_check_prefix(*vault, refv, eref@, f, k as nat);
        }
        let target = match EntityRef::parse(entry.target()) {
            Ok(t) => t,
            Err(m) => {
                proof {
                    lemma_entries_check_err(*vault, refv, eref@, f, (k + 1) as nat, f.len());
                }
                return Err(m);
            },
        };
        match resolve_with(vault, refs, entry.target()) {
            Ok(_) => {},
            Err(m) => {
                proof {
                    lemma_entries_check_err(*vault, refv, eref@, f, (k + 1) as nat, f.len());
                }
                return Err(m);
            },
        }
        match check_endpoints(vault, rel, eref, &target) {
            Ok(_) => {},
            Err(m) => {
                proof {
                    lemma_entries_check_err(*vault, refv, eref@, f, (k + 1) as nat, f.len());
                }
                return Err(m);
            },
        }
        k = k + 1;
    }
    Ok(k)
}

/// Plan the creation of an entity: its ref must parse, its kind be
/// declared, its identity be free, and every relation entry resolve and suit
/// its relation type.
pub fn add(vault: &Vault, spec: AddSpec) -> (r: Result<AddPlan, String>)
    ensures
        exists|t: Seq<(usize, usize)>|
            #[trigger] tally_ok_refs(vault.entities@, t) && match r {
                Ok(p) => add_spec(*vault, tallied_refs(vault.entities@, t), spec) == Ok::<_, Seq<char>>(add_plan_view(p)),
                Err(m) => add_spec(*vault, tallied_refs(vault.entities@, t), spec) == Err::<((Seq<char>, Seq<char>, Seq<char>), Seq<char>, nat, ChangeV, Seq<char>), _>(m@),
            },
{
    let (refs, t) = crate::validate::sorted_refs(&vault.entities);
    let ghost refv = tallied_refs(vault.entities@, t@);
    let ns = match &spec.namespace {
        Some(n) => n.as_str(),
        None => crate::model::DEFAULT_NS,
    };
    let mut text = crate::model::nfc(spec.kind.as_str());
    text.append(":");
    text.append(crate::model::nfc(ns).as_str());
    text.append("/");
    text.append(crate::model::nfc(spec.name.as_str()).as_str());
    proof {
        assert(text@ =~= add_ref_text(spec.kind@, crate::model::opt_text(spec.namespace), spec.name@));
    }
    let eref = match EntityRef::parse(text.as_str()) {
        Ok(e) => e,
        Err(m) => {
            proof {
                assert(tally_ok_refs(vault.entities@, t@));
            }
            return Err(m);
        },
    };
    if crate::model::find_key(&vault.schema.kinds, eref.kind.as_str()).is_none() {
        let m = concat3("kind `", eref.kind.as_str(), "` is not declared (see `laplace query schema`, or `laplace schema add-kind`)");
        proof {
            assert(tally_ok_refs(vault.entities@, t@));
        }
        return Err(m);
    }
    if vault.get(&eref).is_some() {
        let mut m = eref.to_string();
        m.append(" already exists — did you `laplace query search ");
        m.append(eref.name.as_str());
        m.append("` first?");
        proof {
            assert(tally_ok_refs(vault.entities@, t@));
        }
        return Err(m);
    }
    let edges = match check_entries(vault, &refs, &eref, &spec.relations) {
        Ok(n) => n,
        Err(m) => {
            proof {
                assert(tally_ok_refs(vault.entities@, t@));
            }
            return Err(m);
        },
    };
    let nudge = if crate::text::blank(spec.body.as_str()) {
        let guide = match crate::model::find_key(&vault.schema.kinds, eref.kind.as_str()) {
            Some(i) => match &vault.schema.kinds[i].1.description {
                Some(g) => Some(g.as_str()),
                None => None,
            },
            None => None,
        };
        match guide {
            Some(g) => {
                let mut n = concat3("\n  warning: no body — the body is the entity's prose. Guide for `", eref.kind.as_str(), "`: ");
                n.append(g);
                n
            },
            None => owned("\n  warning: no body — the body is the entity's prose"),
        }
    } else {
        String::new()
    };
    let path = entity_path(&eref);
    let mut message = concat("added ", eref.to_string().as_str());
    message.append(" at ");
    message.append(crate::vault::join_path_text(vault.dir.as_str(), path.as_str()).as_str());
    message.append(" (");
    message.append(crate::diag::decimal_string(edges).as_str());
    message.append(" edges)");
    message.append(nudge.as_str());
    let ghost a = spec;
    let fm = FrontMatter {
        title: spec.title,
        tags: spec.tags,
        lifecycle: spec.lifecycle,
        relations: spec.relations,
        source: spec.source,
        kind: None,
        name: None,
        extra: Vec::new(),
    };
    proof {
        assert(fm@.extra =~= Seq::<(Seq<char>, crate::model::YamlV)>::empty());
        assert(fm@ == add_frontmatter(a));
        assert(nudge@ =~= nudge_text(vault.schema, eref@.0, a.body@));
    }
    let plan = AddPlan { eref, path: path.clone(), edges, change: Change::Write { rel: path, fm, body: spec.body }, message };
    proof {
        assert(tally_ok_refs(vault.entities@, t@));
        assert(add_spec(*vault, refv, a) == Ok::<_, Seq<char>>(add_plan_view(plan)));
    }
    Ok(plan)
}


// ───────────────────────────── keyed lists ─────────────────────────────

/// Where key `k` goes among `keys` in order: before the first key above it.
pub open spec fn key_slot(keys: Seq<Seq<char>>, k: Seq<char>) -> int
    decreases keys.len(),
{
    if keys.len() == 0 {
        0
    } else if crate::text::text_lt(k, keys[0]) {
        0
    } else {
        1 + key_slot(keys.drop_first(), k)
    }
}

proof fn lemma_key_slot(keys: Seq<Seq<char>>, k: Seq<char>)
    ensures
        0 <= key_slot(keys, k) <= keys.len(),
    decreases keys.len(),
{
    if keys.len() > 0 {
        lemma_key_slot(keys.drop_first(), k);
    }
}

/// Set key `k` of a keyed list to `v`: in place when present, else where
/// it belongs in key order.
pub open spec fn keyed_set<V>(m: Seq<(Seq<char>, V)>, k: Seq<char>, v: V) -> Seq<(Seq<char>, V)> {
    let keys = m.map_values(|p: (Seq<char>, V)| p.0);
    match crate::model::key_index(keys, k) {
        Some(i) => m.update(i, (k, v)),
        None => m.insert(key_slot(keys, k), (k, v)),
    }
}

/// Remove key `k` from a keyed list.
pub open spec fn keyed_remove<V>(m: Seq<(Seq<char>, V)>, k: Seq<char>) -> Seq<(Seq<char>, V)> {
    match crate::model::key_index(m.map_values(|p: (Seq<char>, V)| p.0), k) {
        Some(i) => m.remove(i),
        None => m,
    }
}

fn slot_of(keys: &Vec<(String, Vec<RelEntry>)>, k: &str) -> (r: usize)
    ensures
        r as int == key_slot(crate::model::relations_view(keys@).map_values(|p: (Seq<char>, Seq<crate::model::RelEntryV>)| p.0), k@),
{
    let ghost ks = crate::model::relations_view(keys@).map_values(|p: (Seq<char>, Seq<crate::model::RelEntryV>)| p.0);
    let mut j: usize = 0;
    assert(ks.skip(0) =~= ks);
    while j < keys.len()
        invariant
            j <= keys.len(),
            ks == crate::model::relations_view(keys@).map_values(|p: (Seq<char>, Seq<crate::model::RelEntryV>)| p.0),
            key_slot(ks, k@) == j + key_slot(ks.skip(j as int), k@),
        decreases keys.len() - j,
    {
        proof {
            assert(ks[j as int] == keys@[j as int].0@);
            assert(ks.skip(j as int).drop_first() =~= ks.skip(j + 1));
        }
        match crate::text::compare_str(k, keys[j].0.as_str()) {
            crate::text::Order::Less => {
                return j;
            },
            _ => {
                proof {
                    crate::text::lemma_text_lt_total(k@, ks[j as int]);
                }
            },
        }
        j = j + 1;
    }
    proof {
        assert(ks.skip(j as int) =~= Seq::<Seq<char>>::empty());
    }
    j
}

/// Set the entries of relation type `rel`.
pub fn set_group(rels: Vec<(String, Vec<RelEntry>)>, rel: String, es: Vec<RelEntry>) -> (r: Vec<(String, Vec<RelEntry>)>)
    ensures
        crate::model::relations_view(r@) == keyed_set(crate::model::relations_view(rels@), rel@, crate::model::entries_view(es@)),
{
    let ghost rv = crate::model::relations_view(rels@);
    let ghost ks = rv.map_values(|p: (Seq<char>, Seq<crate::model::RelEntryV>)| p.0);
    proof {
        assert(ks =~= crate::model::keys_of(rels@));
    }
    let mut m = rels;
    let ghost ev = crate::model::entries_view(es@);
    let ghost kv = rel@;
    match crate::model::find_key(&m, rel.as_str()) {
        Some(i) => {
            m.set(i, (rel, es));
            proof {
                assert(crate::model::relations_view(m@) =~= rv.update(i as int, (kv, ev)));
            }
        },
        None => {
            let pos = slot_of(&m, rel.as_str());
            proof {
                lemma_key_slot(ks, kv);
            }
            m.insert(pos, (rel, es));
            proof {
                assert(crate::model::relations_view(m@) =~= rv.insert(pos as int, (kv, ev)));
            }
        },
    }
    m
}

/// Drop relation type `rel`.
pub fn remove_group(rels: Vec<(String, Vec<RelEntry>)>, rel: &str) -> (r: Vec<(String, Vec<RelEntry>)>)
    ensures
        crate::model::relations_view(r@) == keyed_remove(crate::model::relations_view(rels@), rel@),
{
    let ghost rv = crate::model::relations_view(rels@);
    proof {
        assert(rv.map_values(|p: (Seq<char>, Seq<crate::model::RelEntryV>)| p.0) =~= crate::model::keys_of(rels@));
    }
    let mut m = rels;
    match crate::model::find_key(&m, rel) {
        Some(i) => {
            m.remove(i);
            proof {
                assert(crate::model::relations_view(m@) =~= rv.remove(i as int));
            }
        },
        None => {},
    }
    m
}


// ───────────────────────────── link / unlink ─────────────────────────────

pub type RefV = (Seq<char>, Seq<char>, Seq<char>);

/// The entries stated under relation type `rel` in frontmatter `fm`.
pub open spec fn fm_entries(fm: crate::model::FrontMatterV, rel: Seq<char>) -> Option<Seq<crate::model::RelEntryV>> {
    match crate::model::key_index(fm.relations.map_values(|p: (Seq<char>, Seq<crate::model::RelEntryV>)| p.0), rel) {
        Some(i) => Some(fm.relations[i].1),
        None => None,
    }
}

/// Some entry of `es` names `dst`.
pub open spec fn names_ref(es: Seq<crate::model::RelEntryV>, dst: RefV) -> bool {
    exists|j: int| 0 <= j < es.len() && crate::model::parse_ref((#[trigger] es[j]).target_text()) == Ok::<RefV, Seq<char>>(dst)
}

/// Entity `src` states an edge of type `rel` to `dst`.
pub open spec fn states_edge(v: Vault, src: RefV, rel: Seq<char>, dst: RefV) -> bool {
    match v.entity_index(src) {
        None => false,
        Some(i) => match fm_entries(v.entities@[i]@.fm, rel) {
            None => false,
            Some(es) => names_ref(es, dst),
        },
    }
}

fn entries_name(entries: &Vec<RelEntry>, dst: &EntityRef) -> (r: bool)
    ensures
        r == names_ref(crate::model::entries_view(entries@), dst@),
{
    let ghost ev = crate::model::entries_view(entries@);
    let mut j: usize = 0;
    while j < entries.len()
        invariant
            j <= entries.len(),
            ev == crate::model::entries_view(entries@),
            forall|q: int| 0 <= q < j ==> crate::model::parse_ref((#[trigger] ev[q]).target_text()) != Ok::<RefV, Seq<char>>(dst@),
        decreases entries.len() - j,
    {
        proof {
            assert(ev[j as int] == entries@[j as int]@);
        }
        match EntityRef::parse(entries[j].target()) {
            Ok(t) => {
                if t.same(dst) {
                    return true;
                }
            },
            Err(_) => {},
        }
        j = j + 1;
    }
    false
}

/// Does entity `src` state an edge of type `rel` to `dst`?
fn states(vault: &Vault, src: &EntityRef, rel: &str, dst: &EntityRef) -> (r: bool)
    ensures
        r == states_edge(*vault, src@, rel@, dst@),
{
    match vault.get(src) {
        None => false,
        Some(e) => {
            proof {
                assert(e@.fm.relations.map_values(|p: (Seq<char>, Seq<crate::model::RelEntryV>)| p.0) =~= crate::model::keys_of(e.fm.relations@));
            }
            match crate::model::find_key(&e.fm.relations, rel) {
                None => false,
                Some(k) => entries_name(&e.fm.relations[k].1, dst),
            }
        },
    }
}

/// The entry `link` writes: the elided target, with its note when given.
pub open spec fn link_entry(t: RefV, note: Option<Seq<char>>) -> crate::model::RelEntryV {
    match note {
        None => crate::model::RelEntryV::Bare(elided(t)),
        Some(n) => crate::model::RelEntryV::Object { reference: elided(t), attrs: seq![("note"@, crate::model::YamlV::Str(n))] },
    }
}

/// Frontmatter with the entries of relation type `rel` set to `es`.
pub open spec fn with_entries(fm: crate::model::FrontMatterV, rel: Seq<char>, es: Seq<crate::model::RelEntryV>) -> crate::model::FrontMatterV {
    crate::model::FrontMatterV { relations: keyed_set(fm.relations, rel, es), ..fm }
}

pub type LinkV = (bool, Seq<char>, Seq<Seq<char>>, Option<ChangeV>, RefV, RefV);

/// What `link` plans: a no-op when the edge is already stated (for a
/// symmetric relation type, on either side), else the source's file
/// rewritten with the entry added under its relation type.
pub open spec fn link_spec(v: Vault, refs: Seq<RefV>, from: Seq<char>, rel: Seq<char>, to: Seq<char>, note: Option<Seq<char>>) -> Result<LinkV, Seq<char>> {
    match resolve_spec(v, from, refs) {
        Err(m) => Err(m),
        Ok(f) => match resolve_spec(v, to, refs) {
            Err(m) => Err(m),
            Ok(t) => match relation_check(v.schema, rel) {
                Err(m) => Err(m),
                Ok(i) => match endpoint_check(v.schema, rel, f.0, t.0) {
                    Err(m) => Err(m),
                    Ok(_) => if states_edge(v, f, rel, t) {
                        Ok((true, "no-op: "@ + elided(f) + " --"@ + rel + "--> "@ + elided(t) + " already declared"@, seq![], None, f, t))
                    } else if v.schema.relations@[i].1.symmetric && states_edge(v, t, rel, f) {
                        Ok((true, "no-op: `"@ + rel + "` is symmetric and already declared on "@ + elided(t) + " — one side suffices"@, seq![], None, f, t))
                    } else {
                        let e = v.entities@[v.entity_index(f)->0]@;
                        let old = match fm_entries(e.fm, rel) {
                            Some(es) => es,
                            None => seq![],
                        };
                        let now = edge_list_spec(v, f, rel).push(elided(t));
                        let msg = "linked: "@ + elided(f) + " --"@ + rel + "--> "@ + elided(t) + "\n  now "@ + rel + ": ["@
                            + crate::summary::join_with(now, ", "@) + "]"@;
                        Ok((false, msg, now, Some(ChangeV::Write { rel: e.file, fm: with_entries(e.fm, rel, old.push(link_entry(t, note))), body: e.body }), f, t))
                    },
                },
            },
        },
    }
}

/// A planned `link` (or `unlink`): a no-op or a change, the refs it joins,
/// the source's list of targets afterwards, and the report.
#[derive(Debug)]
pub struct LinkPlan {
    pub noop: bool,
    pub message: String,
    pub now: Vec<String>,
    pub change: Option<Change>,
    pub from: EntityRef,
    pub to: EntityRef,
}

pub open spec fn opt_change(c: Option<Change>) -> Option<ChangeV> {
    match c {
        Some(x) => Some(x@),
        None => None,
    }
}

pub open spec fn link_plan_view(p: LinkPlan) -> LinkV {
    (p.noop, p.message@, strs(p.now@), opt_change(p.change), p.from@, p.to@)
}

pub open spec fn link_result(r: Result<LinkPlan, String>) -> Result<LinkV, Seq<char>> {
    match r {
        Ok(p) => Ok(link_plan_view(p)),
        Err(m) => Err(m@),
    }
}

/// Plan an edge `from --rel--> to` (with a note, when given).
#[verifier::rlimit(60)]
pub fn link(vault: &Vault, from: &str, rel: &str, to: &str, note: Option<String>) -> (r: Result<LinkPlan, String>)
    ensures
        exists|t: Seq<(usize, usize)>|
            #[trigger] tally_ok_refs(vault.entities@, t) && link_result(r) == link_spec(
                *vault,
                tallied_refs(vault.entities@, t),
                from@,
                rel@,
                to@,
                crate::model::opt_text(note),
            ),
{
    let (refs, t) = crate::validate::sorted_refs(&vault.entities);
    let ghost refv = tallied_refs(vault.entities@, t@);
    let ghost nv = crate::model::opt_text(note);
    proof {
        assert(tally_ok_refs(vault.entities@, t@));
    }
    let f = resolve_with(vault, &refs, from)?;
    let tt = resolve_with(vault, &refs, to)?;
    let i = check_relation(vault, rel)?;
    let symmetric = vault.schema.relations[i].1.symmetric;
    check_endpoints(vault, rel, &f, &tt)?;
    if states(vault, &f, rel, &tt) {
        let mut m = concat("no-op: ", elide(&f).as_str());
        m.append(" --");
        m.append(rel);
        m.append("--> ");
        m.append(elide(&tt).as_str());
        m.append(" already declared");
        let plan = LinkPlan { noop: true, message: m, now: Vec::new(), change: None, from: f, to: tt };
        proof {
            assert(m@ =~= "no-op: "@ + elided(f@) + " --"@ + rel@ + "--> "@ + elided(tt@) + " already declared"@);
            assert(strs(plan.now@) =~= Seq::<Seq<char>>::empty());
            assert(link_result(Ok(plan)) == link_spec(*vault, refv, from@, rel@, to@, nv));
        }
        return Ok(plan);
    }
    if symmetric && states(vault, &tt, rel, &f) {
        let mut m = concat3("no-op: `", rel, "` is symmetric and already declared on ");
        m.append(elide(&tt).as_str());
        m.append(" — one side suffices");
        let plan = LinkPlan { noop: true, message: m, now: Vec::new(), change: None, from: f, to: tt };
        proof {
            assert(m@ =~= "no-op: `"@ + rel@ + "` is symmetric and already declared on "@ + elided(tt@) + " — one side suffices"@);
            assert(strs(plan.now@) =~= Seq::<Seq<char>>::empty());
            assert(link_result(Ok(plan)) == link_spec(*vault, refv, from@, rel@, to@, nv));
        }
        return Ok(plan);
    }
    let e = vault.get(&f).unwrap();
    let entry = match note {
        None => RelEntry::Bare(elide(&tt)),
        Some(n) => {
            let mut attrs: Vec<(String, crate::model::YamlValue)> = Vec::new();
            attrs.push((owned("note"), crate::model::YamlValue::Str(n)));
            RelEntry::Object { reference: elide(&tt), attrs }
        },
    };
    proof {
        assert(entry@ == link_entry(tt@, nv)) by {
            match entry@ {
                crate::model::RelEntryV::Object { reference, attrs } => {
                    assert(attrs =~= seq![("note"@, crate::model::YamlV::Str(nv->0))]);
                },
                _ => {},
            }
        }
        assert(e@.fm.relations.map_values(|p: (Seq<char>, Seq<crate::model::RelEntryV>)| p.0) =~= crate::model::keys_of(e.fm.relations@));
    }
    let ghost ev = e@;
    let mut entries = match crate::model::find_key(&e.fm.relations, rel) {
        Some(k) => {
            proof {
                assert(ev.fm.relations[k as int] == (e.fm.relations@[k as int].0@, crate::model::entries_view(e.fm.relations@[k as int].1@)));
            }
            crate::model::duplicate_entries(&e.fm.relations[k].1)
        },
        None => Vec::new(),
    };
    let ghost old_entries = crate::model::entries_view(entries@);
    proof {
        assert(old_entries =~= match fm_entries(ev.fm, rel@) {
            Some(es) => es,
            None => seq![],
        });
    }
    entries.push(entry);
    proof {
        assert(crate::model::entries_view(entries@) =~= old_entries.push(link_entry(tt@, nv)));
    }
    let mut fm = e.fm.duplicate();
    let rels = fm.relations;
    fm.relations = set_group(rels, owned(rel), entries);
    proof {
        assert(fm@ == with_entries(ev.fm, rel@, old_entries.push(link_entry(tt@, nv))));
    }
    let mut now = edge_list(vault, &f, rel);
    now.push(elide(&tt));
    let mut m = concat("linked: ", elide(&f).as_str());
    m.append(" --");
    m.append(rel);
    m.append("--> ");
    m.append(elide(&tt).as_str());
    m.append("\n  now ");
    m.append(rel);
    m.append(": [");
    m.append(crate::summary::join_strings(&now, ", ").as_str());
    m.append("]");
    proof {
        assert(strs(now@) =~= strs(now@.drop_last()).push(now@.last()@));
        assert(m@ =~= "linked: "@ + elided(f@) + " --"@ + rel@ + "--> "@ + elided(tt@) + "\n  now "@ + rel@ + ": ["@
            + crate::summary::join_with(strs(now@), ", "@) + "]"@);
        assert(vault.entity_index(f@) is Some);
        assert(ev == vault.entities@[vault.entity_index(f@)->0]@);
    }
    let plan = LinkPlan {
        noop: false,
        message: m,
        now,
        change: Some(Change::Write { rel: e.file.clone(), fm, body: e.body.clone() }),
        from: f,
        to: tt,
    };
    proof {
        let sp = link_spec(*vault, refv, from@, rel@, to@, nv);
        assert(resolve_spec(*vault, from@, refv) == Ok::<RefV, Seq<char>>(f@));
        assert(resolve_spec(*vault, to@, refv) == Ok::<RefV, Seq<char>>(tt@));
        assert(relation_check(vault.schema, rel@) == Ok::<int, Seq<char>>(i as int));
        assert(endpoint_check(vault.schema, rel@, f@.0, tt@.0) == Ok::<(), Seq<char>>(()));
        assert(!states_edge(*vault, f@, rel@, tt@));
        assert(!(vault.schema.relations@[i as int].1.symmetric && states_edge(*vault, tt@, rel@, f@)));
        assert(sp is Ok);
        let v = sp->Ok_0;
        assert(v.0 == false);
        assert(v.2 == strs(plan.now@));
        assert(v.1 == plan.message@);
        assert(v.3 == opt_change(plan.change));
        assert(link_result(Ok(plan)) == link_spec(*vault, refv, from@, rel@, to@, nv));
    }
    Ok(plan)
}


/// The first `k` entries, less those naming `dst`.
pub open spec fn kept_entries(es: Seq<crate::model::RelEntryV>, dst: RefV, k: nat) -> Seq<crate::model::RelEntryV>
    decreases k,
{
    if k == 0 {
        seq![]
    } else {
        let before = kept_entries(es, dst, (k - 1) as nat);
        if crate::model::parse_ref(es[k - 1].target_text()) == Ok::<RefV, Seq<char>>(dst) {
            before
        } else {
            before.push(es[k - 1])
        }
    }
}

/// The source's file without its entries of type `rel` naming `dst`, when
/// it has any.
pub open spec fn take_from(v: Vault, src: RefV, rel: Seq<char>, dst: RefV) -> Option<ChangeV> {
    match v.entity_index(src) {
        None => None,
        Some(i) => {
            let e = v.entities@[i]@;
            match fm_entries(e.fm, rel) {
                None => None,
                Some(es) => {
                    let keep = kept_entries(es, dst, es.len());
                    if keep.len() == es.len() {
                        None
                    } else {
                        let rels = unlinked_relations(e.fm.relations, rel, dst);
                        Some(ChangeV::Write { rel: e.file, fm: crate::model::FrontMatterV { relations: rels, ..e.fm }, body: e.body })
                    }
                },
            }
        },
    }
}

/// What `unlink` plans: the source's file without the edge (for a symmetric
/// relation type, the target's when the source does not state it).
pub open spec fn unlink_spec(v: Vault, refs: Seq<RefV>, from: Seq<char>, rel: Seq<char>, to: Seq<char>) -> Result<(ChangeV, Seq<char>), Seq<char>> {
    match resolve_spec(v, from, refs) {
        Err(m) => Err(m),
        Ok(f) => match resolve_spec(v, to, refs) {
            Err(m) => Err(m),
            Ok(t) => match relation_check(v.schema, rel) {
                Err(m) => Err(m),
                Ok(i) => {
                    let c = match take_from(v, f, rel, t) {
                        Some(c) => Some(c),
                        None => if v.schema.relations@[i].1.symmetric {
                            take_from(v, t, rel, f)
                        } else {
                            None
                        },
                    };
                    match c {
                        Some(c) => Ok((c, "unlinked: "@ + elided(f) + " --"@ + rel + "--> "@ + elided(t))),
                        None => Err("no edge "@ + elided(f) + " --"@ + rel + "--> "@ + elided(t) + " to remove"@),
                    }
                },
            },
        },
    }
}

fn keep_entries(entries: &Vec<RelEntry>, dst: &EntityRef) -> (r: Vec<RelEntry>)
    ensures
        crate::model::entries_view(r@) == kept_entries(crate::model::entries_view(entries@), dst@, entries@.len() as nat),
{
    let ghost ev = crate::model::entries_view(entries@);
    let mut out: Vec<RelEntry> = Vec::new();
    let mut j: usize = 0;
    while j < entries.len()
        invariant
            j <= entries.len(),
            ev == crate::model::entries_view(entries@),
            crate::model::entries_view(out@) == kept_entries(ev, dst@, j as nat),
        decreases entries.len() - j,
    {
        proof {
            assert(ev[j as int] == entries@[j as int]@);
        }
        let names = match EntityRef::parse(entries[j].target()) {
            Ok(t) => t.same(dst),
            Err(_) => false,
        };
        if !names {
            out.push(entries[j].duplicate());
            proof {
                assert(crate::model::entries_view(out@) =~= crate::model::entries_view(out@.drop_last()).push(out@.last()@));
            }
        }
        j = j + 1;
    }
    out
}

fn take_edge(vault: &Vault, src: &EntityRef, rel: &str, dst: &EntityRef) -> (r: Option<Change>)
    ensures
        opt_change(r) == take_from(*vault, src@, rel@, dst@),
{
    let e = match vault.get(src) {
        Some(e) => e,
        None => {
            return None;
        },
    };
    let ghost ev = e@;
    proof {
        assert(ev.fm.relations.map_values(|p: (Seq<char>, Seq<crate::model::RelEntryV>)| p.0) =~= crate::model::keys_of(e.fm.relations@));
    }
    let k = match crate::model::find_key(&e.fm.relations, rel) {
        Some(k) => k,
        None => {
            return None;
        },
    };
    let entries = &e.fm.relations[k].1;
    proof {
        assert(ev.fm.relations[k as int] == (e.fm.relations@[k as int].0@, crate::model::entries_view(entries@)));
    }
    let keep = keep_entries(entries, dst);
    proof {
        assert(crate::model::entries_view(keep@).len() == keep@.len());
        assert(crate::model::entries_view(entries@).len() == entries@.len());
    }
    if keep.len() == entries.len() {
        return None;
    }
    let mut fm = e.fm.duplicate();
    let rels = fm.relations;
    if keep.len() == 0 {
        fm.relations = remove_group(rels, rel);
    } else {
        fm.relations = set_group(rels, owned(rel), keep);
    }
    Some(Change::Write { rel: e.file.clone(), fm, body: e.body.clone() })
}

proof fn lemma_kept_prefix(es: Seq<crate::model::RelEntryV>, x: crate::model::RelEntryV, dst: RefV, k: nat)
    requires
        k <= es.len(),
    ensures
        kept_entries(es.push(x), dst, k) == kept_entries(es, dst, k),
    decreases k,
{
    if k > 0 {
        lemma_kept_prefix(es, x, dst, (k - 1) as nat);
        assert(es.push(x)[k - 1] == es[k - 1]);
    }
}

proof fn lemma_kept_all(es: Seq<crate::model::RelEntryV>, dst: RefV, k: nat)
    requires
        k <= es.len(),
        !names_ref(es, dst),
    ensures
        kept_entries(es, dst, k) == es.take(k as int),
    decreases k,
{
    if k > 0 {
        lemma_kept_all(es, dst, (k - 1) as nat);
        assert(crate::model::parse_ref(es[k - 1].target_text()) != Ok::<RefV, Seq<char>>(dst));
        assert(es.take(k as int) =~= es.take(k - 1).push(es[k - 1]));
    } else {
        assert(es.take(0) =~= Seq::<crate::model::RelEntryV>::empty());
    }
}

/// Unlinking the edge a link just added gives back the entries as they were
/// before the link, whatever its note.
pub proof fn lemma_unlink_undoes_link(es: Seq<crate::model::RelEntryV>, t: RefV, note: Option<Seq<char>>)
    requires
        !names_ref(es, t),
        crate::model::is_valid_word(t.0),
        crate::model::is_valid_word(t.1),
        crate::model::is_valid_word(t.2),
        crate::model::nfc_of(t.0) == t.0,
        crate::model::nfc_of(t.1) == t.1,
        crate::model::nfc_of(t.2) == t.2,
    ensures
        kept_entries(es.push(link_entry(t, note)), t, es.len() + 1) == es,
{
    lemma_elided_parses_back(t);
    let x = link_entry(t, note);
    assert(x.target_text() == elided(t));
    lemma_kept_prefix(es, x, t, es.len());
    lemma_kept_all(es, t, es.len());
    assert(es.take(es.len() as int) =~= es);
    assert(es.push(x)[es.len() as int] == x);
}

/// `k` first stands at `i`.
proof fn lemma_key_index_at(keys: Seq<Seq<char>>, k: Seq<char>, i: int)
    requires
        0 <= i < keys.len(),
        keys[i] == k,
        forall|j: int| 0 <= j < i ==> keys[j] != k,
    ensures
        crate::model::key_index(keys, k) == Some(i),
{
    crate::model::lemma_key_index(keys, k);
}

/// The relations of a source after `unlink` has taken the entries naming
/// `t` out of its type `rel`: the type goes when nothing is left of it.
pub open spec fn unlinked_relations(
    m: Seq<(Seq<char>, Seq<crate::model::RelEntryV>)>,
    rel: Seq<char>,
    t: RefV,
) -> Seq<(Seq<char>, Seq<crate::model::RelEntryV>)> {
    let es = group_of(m, rel);
    let keep = kept_entries(es, t, es.len());
    if keep.len() == 0 {
        keyed_remove(m, rel)
    } else {
        keyed_set(m, rel, keep)
    }
}

/// Unlinking the edge a link just added gives back the source's relations
/// as they were: the same types in the same order, each with the same
/// entries in the same order. (A type stated with no entries at all is
/// dropped by the unlink.)
pub proof fn lemma_unlink_restores_relations(
    m: Seq<(Seq<char>, Seq<crate::model::RelEntryV>)>,
    rel: Seq<char>,
    t: RefV,
    note: Option<Seq<char>>,
)
    requires
        !names_ref(group_of(m, rel), t),
        crate::model::key_index(m.map_values(|p: (Seq<char>, Seq<crate::model::RelEntryV>)| p.0), rel) is Some
            ==> group_of(m, rel).len() > 0,
        crate::model::is_valid_word(t.0),
        crate::model::is_valid_word(t.1),
        crate::model::is_valid_word(t.2),
        crate::model::nfc_of(t.0) == t.0,
        crate::model::nfc_of(t.1) == t.1,
        crate::model::nfc_of(t.2) == t.2,
    ensures
        unlinked_relations(keyed_set(m, rel, group_of(m, rel).push(link_entry(t, note))), rel, t) == m,
{
    let keys = m.map_values(|p: (Seq<char>, Seq<crate::model::RelEntryV>)| p.0);
    let es = group_of(m, rel);
    let x = link_entry(t, note);
    let m2 = keyed_set(m, rel, es.push(x));
    let keys2 = m2.map_values(|p: (Seq<char>, Seq<crate::model::RelEntryV>)| p.0);
    crate::model::lemma_key_index(keys, rel);
    lemma_unlink_undoes_link(es, t, note);
    match crate::model::key_index(keys, rel) {
        Some(i) => {
            assert(m2 == m.update(i, (rel, es.push(x))));
            assert(keys2 =~= keys);
            assert(group_of(m2, rel) == es.push(x));
            assert(kept_entries(es.push(x), t, es.push(x).len()) == es);
            assert(m2.update(i, (rel, es)) =~= m);
        },
        None => {
            lemma_key_slot(keys, rel);
            let p = key_slot(keys, rel);
            assert(m2 == m.insert(p, (rel, es.push(x))));
            assert(keys2 =~= keys.insert(p, rel));
            assert forall|j: int| 0 <= j < p implies keys2[j] != rel by {
                assert(keys2[j] == keys[j]);
            }
            lemma_key_index_at(keys2, rel, p);
            assert(group_of(m2, rel) == es.push(x));
            assert(es.len() == 0);
            assert(kept_entries(es.push(x), t, es.push(x).len()) == es);
            assert(m2.remove(p) =~= m);
        },
    }
}

/// The relation types of a frontmatter form a map: each type once, in
/// name order.
pub open spec fn relations_ordered(fm: crate::model::FrontMatterV) -> bool {
    crate::schema_ops::keys_ordered(crate::schema_ops::key_list(fm.relations))
}

/// Setting a relation type's entries (as `link` and the rewrites do) and
/// taking entries out (as `unlink` does) keep the relation types a map.
pub proof fn lemma_relation_writes_stay_ordered(
    fm: crate::model::FrontMatterV,
    rel: Seq<char>,
    es: Seq<crate::model::RelEntryV>,
    t: RefV,
)
    requires
        relations_ordered(fm),
    ensures
        relations_ordered(with_entries(fm, rel, es)),
        crate::schema_ops::keys_ordered(crate::schema_ops::key_list(unlinked_relations(fm.relations, rel, t))),
{
    crate::schema_ops::lemma_keyed_set_ordered(fm.relations, rel, es);
    let g = group_of(fm.relations, rel);
    crate::schema_ops::lemma_keyed_set_ordered(fm.relations, rel, kept_entries(g, t, g.len()));
    crate::schema_ops::lemma_keyed_remove_ordered(fm.relations, rel);
}

/// A link of an edge already stated (for a symmetric relation type, on
/// either side) between refs that resolve, over a declared relation type
/// whose endpoints admit them, changes nothing: the plan is a no-op with no
/// file to write.
pub proof fn lemma_link_stated_is_noop(
    v: Vault,
    refs: Seq<RefV>,
    from: Seq<char>,
    rel: Seq<char>,
    to: Seq<char>,
    note: Option<Seq<char>>,
    f: RefV,
    t: RefV,
    i: int,
)
    requires
        resolve_spec(v, from, refs) == Ok::<RefV, Seq<char>>(f),
        resolve_spec(v, to, refs) == Ok::<RefV, Seq<char>>(t),
        relation_check(v.schema, rel) == Ok::<int, Seq<char>>(i),
        endpoint_check(v.schema, rel, f.0, t.0) == Ok::<(), Seq<char>>(()),
        states_edge(v, f, rel, t) || (v.schema.relations@[i].1.symmetric && states_edge(v, t, rel, f)),
    ensures
        link_spec(v, refs, from, rel, to, note) is Ok,
        link_spec(v, refs, from, rel, to, note)->Ok_0.0,
        link_spec(v, refs, from, rel, to, note)->Ok_0.3 is None,
{
}

/// A planned `unlink`: the change and the report.
#[derive(Debug)]
pub struct UnlinkPlan {
    pub change: Change,
    pub message: String,
}

/// Plan the removal of the edge `from --rel--> to`.
pub fn unlink(vault: &Vault, from: &str, rel: &str, to: &str) -> (r: Result<UnlinkPlan, String>)
    ensures
        exists|t: Seq<(usize, usize)>|
            #[trigger] tally_ok_refs(vault.entities@, t) && match r {
                Ok(p) => unlink_spec(*vault, tallied_refs(vault.entities@, t), from@, rel@, to@) == Ok::<_, Seq<char>>((p.change@, p.message@)),
                Err(m) => unlink_spec(*vault, tallied_refs(vault.entities@, t), from@, rel@, to@) == Err::<(ChangeV, Seq<char>), _>(m@),
            },
{
    let (refs, t) = crate::validate::sorted_refs(&vault.entities);
    proof {
        assert(tally_ok_refs(vault.entities@, t@));
    }
    let f = resolve_with(vault, &refs, from)?;
    let tt = resolve_with(vault, &refs, to)?;
    let i = check_relation(vault, rel)?;
    let symmetric = vault.schema.relations[i].1.symmetric;
    let c = match take_edge(vault, &f, rel, &tt) {
        Some(c) => Some(c),
        None => {
            if symmetric {
                take_edge(vault, &tt, rel, &f)
            } else {
                None
            }
        },
    };
    let mut m = elide(&f);
    m.append(" --");
    m.append(rel);
    m.append("--> ");
    m.append(elide(&tt).as_str());
    match c {
        Some(change) => {
            let message = concat("unlinked: ", m.as_str());
            proof {
                assert(message@ =~= "unlinked: "@ + elided(f@) + " --"@ + rel@ + "--> "@ + elided(tt@));
            }
            Ok(UnlinkPlan { change, message })
        },
        None => {
            let mut e = concat("no edge ", m.as_str());
            e.append(" to remove");
            proof {
                assert(e@ =~= "no edge "@ + elided(f@) + " --"@ + rel@ + "--> "@ + elided(tt@) + " to remove"@);
            }
            Err(e)
        },
    }
}


// ───────────────────────────── update ─────────────────────────────

fn attr_slot(keys: &Vec<(String, crate::model::YamlValue)>, k: &str) -> (r: usize)
    ensures
        r as int == key_slot(crate::model::attrs_view(keys@).map_values(|p: (Seq<char>, crate::model::YamlV)| p.0), k@),
{
    let ghost ks = crate::model::attrs_view(keys@).map_values(|p: (Seq<char>, crate::model::YamlV)| p.0);
    let mut j: usize = 0;
    assert(ks.skip(0) =~= ks);
    while j < keys.len()
        invariant
            j <= keys.len(),
            ks == crate::model::attrs_view(keys@).map_values(|p: (Seq<char>, crate::model::YamlV)| p.0),
            key_slot(ks, k@) == j + key_slot(ks.skip(j as int), k@),
        decreases keys.len() - j,
    {
        proof {
            assert(ks[j as int] == keys@[j as int].0@);
            assert(ks.skip(j as int).drop_first() =~= ks.skip(j + 1));
        }
        match crate::text::compare_str(k, keys[j].0.as_str()) {
            crate::text::Order::Less => {
                return j;
            },
            _ => {
                proof {
                    crate::text::lemma_text_lt_total(k@, ks[j as int]);
                }
            },
        }
        j = j + 1;
    }
    proof {
        assert(ks.skip(j as int) =~= Seq::<Seq<char>>::empty());
    }
    j
}

/// Set a free-form frontmatter key.
pub fn set_attr(attrs: Vec<(String, crate::model::YamlValue)>, k: String, v: crate::model::YamlValue) -> (r: Vec<(String, crate::model::YamlValue)>)
    ensures
        crate::model::attrs_view(r@) == keyed_set(crate::model::attrs_view(attrs@), k@, v@),
{
    let ghost av = crate::model::attrs_view(attrs@);
    let ghost ks = av.map_values(|p: (Seq<char>, crate::model::YamlV)| p.0);
    proof {
        assert(ks =~= crate::model::keys_of(attrs@));
    }
    let mut m = attrs;
    let ghost kv = k@;
    let ghost vv = v@;
    match crate::model::find_key(&m, k.as_str()) {
        Some(i) => {
            m.set(i, (k, v));
            proof {
                assert(crate::model::attrs_view(m@) =~= av.update(i as int, (kv, vv)));
            }
        },
        None => {
            let pos = attr_slot(&m, k.as_str());
            proof {
                lemma_key_slot(ks, kv);
            }
            m.insert(pos, (k, v));
            proof {
                assert(crate::model::attrs_view(m@) =~= av.insert(pos as int, (kv, vv)));
            }
        },
    }
    m
}

/// Remove a free-form frontmatter key.
pub fn remove_attr(attrs: Vec<(String, crate::model::YamlValue)>, k: &str) -> (r: Vec<(String, crate::model::YamlValue)>)
    ensures
        crate::model::attrs_view(r@) == keyed_remove(crate::model::attrs_view(attrs@), k@),
{
    let ghost av = crate::model::attrs_view(attrs@);
    proof {
        assert(av.map_values(|p: (Seq<char>, crate::model::YamlV)| p.0) =~= crate::model::keys_of(attrs@));
    }
    let mut m = attrs;
    match crate::model::find_key(&m, k) {
        Some(i) => {
            m.remove(i);
            proof {
                assert(crate::model::attrs_view(m@) =~= av.remove(i as int));
            }
        },
        None => {},
    }
    m
}

/// What `update` is asked to change.
pub struct UpdateSpec {
    pub title: Option<String>,
    pub clear_title: bool,
    pub lifecycle: Option<String>,
    pub clear_lifecycle: bool,
    pub add_tags: Vec<String>,
    pub remove_tags: Vec<String>,
    pub set: Vec<(String, String)>,
    pub unset: Vec<String>,
    pub body: Option<String>,
}

/// Keys with a dedicated flag or operation, which `--set` refuses.
pub open spec fn reserved_key(k: Seq<char>) -> bool {
    k == "kind"@ || k == "name"@ || k == "relations"@ || k == "source"@ || k == "title"@ || k == "tags"@ || k == "lifecycle"@
}

pub open spec fn tags_added(tags: Seq<Seq<char>>, adds: Seq<Seq<char>>, k: nat) -> Seq<Seq<char>>
    decreases k,
{
    if k == 0 {
        tags
    } else {
        let t = tags_added(tags, adds, (k - 1) as nat);
        if t.contains(adds[k - 1]) {
            t
        } else {
            t.push(adds[k - 1])
        }
    }
}

pub open spec fn tags_kept(tags: Seq<Seq<char>>, removes: Seq<Seq<char>>, k: nat) -> Seq<Seq<char>>
    decreases k,
{
    if k == 0 {
        seq![]
    } else {
        let t = tags_kept(tags, removes, (k - 1) as nat);
        if removes.contains(tags[k - 1]) {
            t
        } else {
            t.push(tags[k - 1])
        }
    }
}

pub open spec fn sets_applied(extra: Seq<(Seq<char>, crate::model::YamlV)>, sets: Seq<(Seq<char>, Seq<char>)>, k: nat) -> Result<
    Seq<(Seq<char>, crate::model::YamlV)>,
    Seq<char>,
>
    decreases k,
{
    if k == 0 {
        Ok(extra)
    } else {
        match sets_applied(extra, sets, (k - 1) as nat) {
            Err(m) => Err(m),
            Ok(x) => if reserved_key(sets[k - 1].0) {
                Err("`"@ + sets[k - 1].0 + "` has a dedicated flag or operation; --set is for free-form keys"@)
            } else {
                Ok(keyed_set(x, sets[k - 1].0, crate::model::YamlV::Str(sets[k - 1].1)))
            },
        }
    }
}

pub open spec fn unsets_applied(extra: Seq<(Seq<char>, crate::model::YamlV)>, keys: Seq<Seq<char>>, k: nat) -> Seq<(Seq<char>, crate::model::YamlV)>
    decreases k,
{
    if k == 0 {
        extra
    } else {
        keyed_remove(unsets_applied(extra, keys, (k - 1) as nat), keys[k - 1])
    }
}

pub open spec fn overridden(old: Option<Seq<char>>, clear: bool, new: Option<Seq<char>>) -> Option<Seq<char>> {
    match new {
        Some(n) => Some(n),
        None => if clear {
            None
        } else {
            old
        },
    }
}

/// What `update` plans: the entity's file with the changes applied in
/// order (title, lifecycle, tags added then removed, keys set then unset,
/// body), or why it refuses.
pub open spec fn update_spec(v: Vault, refs: Seq<RefV>, r: Seq<char>, u: UpdateSpec) -> Result<(RefV, ChangeV, Seq<char>), Seq<char>> {
    match resolve_spec(v, r, refs) {
        Err(m) => Err(m),
        Ok(e) => {
            let ent = v.entities@[v.entity_index(e)->0]@;
            let sets = u.set@.map_values(|p: (String, String)| (p.0@, p.1@));
            match sets_applied(ent.fm.extra, sets, sets.len()) {
                Err(m) => Err(m),
                Ok(x) => {
                    let added = tags_added(ent.fm.tags, strs(u.add_tags@), u.add_tags@.len());
                    let fm = crate::model::FrontMatterV {
                        title: overridden(ent.fm.title, u.clear_title, crate::model::opt_text(u.title)),
                        lifecycle: overridden(ent.fm.lifecycle, u.clear_lifecycle, crate::model::opt_text(u.lifecycle)),
                        tags: tags_kept(added, strs(u.remove_tags@), added.len()),
                        extra: unsets_applied(x, strs(u.unset@), u.unset@.len()),
                        ..ent.fm
                    };
                    let body = match u.body {
                        Some(b) => b@,
                        None => ent.body,
                    };
                    Ok((e, ChangeV::Write { rel: ent.file, fm, body }, "updated "@ + canonical(e)))
                },
            }
        },
    }
}

/// A planned `update`.
#[derive(Debug)]
pub struct UpdatePlan {
    pub eref: EntityRef,
    pub change: Change,
    pub message: String,
}

fn apply_sets(extra: Vec<(String, crate::model::YamlValue)>, sets: &Vec<(String, String)>) -> (r: Result<Vec<(String, crate::model::YamlValue)>, String>)
    ensures
        match r {
            Ok(x) => sets_applied(crate::model::attrs_view(extra@), sets@.map_values(|p: (String, String)| (p.0@, p.1@)), sets@.len()) == Ok::<_, Seq<char>>(crate::model::attrs_view(x@)),
            Err(m) => sets_applied(crate::model::attrs_view(extra@), sets@.map_values(|p: (String, String)| (p.0@, p.1@)), sets@.len()) == Err::<Seq<(Seq<char>, crate::model::YamlV)>, _>(m@),
        },
{
    let ghost sv = sets@.map_values(|p: (String, String)| (p.0@, p.1@));
    let ghost x0 = crate::model::attrs_view(extra@);
    let mut x = extra;
    let mut k: usize = 0;
    while k < sets.len()
        invariant
            k <= sets.len(),
            sv == sets@.map_values(|p: (String, String)| (p.0@, p.1@)),
            x0 == crate::model::attrs_view(extra@),
            sets_applied(x0, sv, k as nat) == Ok::<_, Seq<char>>(crate::model::attrs_view(x@)),
        decreases sets.len() - k,
    {
        let key = sets[k].0.as_str();
        proof {
            assert(sv[k as int] == (sets@[k as int].0@, sets@[k as int].1@));
        }
        let reserved = str_eq(key, "kind") || str_eq(key, "name") || str_eq(key, "relations") || str_eq(key, "source")
            || str_eq(key, "title") || str_eq(key, "tags") || str_eq(key, "lifecycle");
        if reserved {
            let m = concat3("`", key, "` has a dedicated flag or operation; --set is for free-form keys");
            proof {
                assert(reserved_key(sv[k as int].0));
                assert(sets_applied(x0, sv, (k + 1) as nat) == Err::<Seq<(Seq<char>, crate::model::YamlV)>, Seq<char>>(m@));
                lemma_sets_err(x0, sv, (k + 1) as nat, sv.len());
            }
            return Err(m);
        }
        x = set_attr(x, sets[k].0.clone(), crate::model::YamlValue::Str(sets[k].1.clone()));
        k = k + 1;
    }
    Ok(x)
}

proof fn lemma_sets_err(extra: Seq<(Seq<char>, crate::model::YamlV)>, sets: Seq<(Seq<char>, Seq<char>)>, k: nat, m: nat)
    requires
        k <= m,
        sets_applied(extra, sets, k) is Err,
    ensures
        sets_applied(extra, sets, m) == sets_applied(extra, sets, k),
    decreases m,
{
    if m > k {
        lemma_sets_err(extra, sets, k, (m - 1) as nat);
    }
}

/// Plan changes to an entity's frontmatter or body.
#[verifier::rlimit(60)]
pub fn update(vault: &Vault, r: &str, spec: UpdateSpec) -> (res: Result<UpdatePlan, String>)
    ensures
        exists|t: Seq<(usize, usize)>|
            #[trigger] tally_ok_refs(vault.entities@, t) && match res {
                Ok(p) => update_spec(*vault, tallied_refs(vault.entities@, t), r@, spec) == Ok::<_, Seq<char>>((p.eref@, p.change@, p.message@)),
                Err(m) => update_spec(*vault, tallied_refs(vault.entities@, t), r@, spec) == Err::<(RefV, ChangeV, Seq<char>), _>(m@),
            },
{
    let (refs, t) = crate::validate::sorted_refs(&vault.entities);
    proof {
        assert(tally_ok_refs(vault.entities@, t@));
    }
    let ghost u = spec;
    let eref = resolve_with(vault, &refs, r)?;
    let e = vault.get(&eref).unwrap();
    let ghost ent = e@;
    let mut fm = e.fm.duplicate();
    let extra = fm.extra;
    let x = apply_sets(extra, &spec.set)?;
    if spec.clear_title {
        fm.title = None;
    }
    match spec.title {
        Some(t) => {
            fm.title = Some(t);
        },
        None => {},
    }
    if spec.clear_lifecycle {
        fm.lifecycle = None;
    }
    match spec.lifecycle {
        Some(l) => {
            fm.lifecycle = Some(l);
        },
        None => {},
    }
    let mut tags = fm.tags;
    let ghost tv0 = strs(tags@);
    let mut k: usize = 0;
    while k < spec.add_tags.len()
        invariant
            k <= spec.add_tags.len(),
            strs(tags@) == tags_added(tv0, strs(spec.add_tags@), k as nat),
        decreases spec.add_tags.len() - k,
    {
        proof {
            assert(strs(spec.add_tags@)[k as int] == spec.add_tags@[k as int]@);
        }
        if !crate::model::list_contains(&tags, spec.add_tags[k].as_str()) {
            tags.push(spec.add_tags[k].clone());
            proof {
                assert(strs(tags@) =~= strs(tags@.drop_last()).push(tags@.last()@));
            }
        }
        k = k + 1;
    }
    let ghost added = strs(tags@);
    let mut kept: Vec<String> = Vec::new();
    let mut j: usize = 0;
    while j < tags.len()
        invariant
            j <= tags.len(),
            added == strs(tags@),
            strs(kept@) == tags_kept(added, strs(spec.remove_tags@), j as nat),
        decreases tags.len() - j,
    {
        proof {
            assert(added[j as int] == tags@[j as int]@);
        }
        if !crate::model::list_contains(&spec.remove_tags, tags[j].as_str()) {
            kept.push(tags[j].clone());
            proof {
                assert(strs(kept@) =~= strs(kept@.drop_last()).push(kept@.last()@));
            }
        }
        j = j + 1;
    }
    fm.tags = kept;
    let mut x = x;
    let ghost xv = crate::model::attrs_view(x@);
    let mut q: usize = 0;
    while q < spec.unset.len()
        invariant
            q <= spec.unset.len(),
            crate::model::attrs_view(x@) == unsets_applied(xv, strs(spec.unset@), q as nat),
        decreases spec.unset.len() - q,
    {
        proof {
            assert(strs(spec.unset@)[q as int] == spec.unset@[q as int]@);
        }
        x = remove_attr(x, spec.unset[q].as_str());
        q = q + 1;
    }
    fm.extra = x;
    let body = match spec.body {
        Some(b) => b,
        None => e.body.clone(),
    };
    let message = concat("updated ", eref.to_string().as_str());
    let plan = UpdatePlan { eref, change: Change::Write { rel: e.file.clone(), fm, body }, message };
    proof {
        let sp = update_spec(*vault, tallied_refs(vault.entities@, t@), r@, u);
        assert(resolve_spec(*vault, r@, tallied_refs(vault.entities@, t@)) == Ok::<RefV, Seq<char>>(plan.eref@));
        assert(ent == vault.entities@[vault.entity_index(plan.eref@)->0]@);
        assert(sp is Ok);
        assert(sp == Ok::<_, Seq<char>>((plan.eref@, plan.change@, plan.message@)));
    }
    Ok(plan)
}

// ───────────────────────────── remove ─────────────────────────────

/// The inbound refs to `target` over the first `k` entities, each as
/// `source --rel--> it`.
pub open spec fn inbound_upto(es: Seq<Entity>, target: RefV, k: nat) -> Seq<Seq<char>>
    decreases k,
{
    if k == 0 {
        seq![]
    } else {
        let e = es[k - 1];
        inbound_upto(es, target, (k - 1) as nat) + if e.eref@ == target {
            seq![]
        } else {
            inbound_of(e.eref@, flat_entries(e@.fm.relations), target)
        }
    }
}

pub open spec fn inbound_of(src: RefV, flat: Seq<(Seq<char>, crate::model::RelEntryV)>, target: RefV) -> Seq<Seq<char>>
    decreases flat.len(),
{
    if flat.len() == 0 {
        seq![]
    } else {
        inbound_of(src, flat.drop_last(), target) + if crate::model::parse_ref(flat.last().1.target_text()) == Ok::<RefV, Seq<char>>(target) {
            seq![elided(src) + " --"@ + flat.last().0 + "--> it"@]
        } else {
            seq![]
        }
    }
}


pub open spec fn refusal_message(inb: Seq<Seq<char>>) -> Seq<char> {
    "refused: "@ + crate::diag::decimal(inb.len()) + " inbound refs would dangle — unlink them first:\n  "@ + crate::summary::join_with(inb, "\n  "@)
}

/// What `remove` plans: the entity's file deleted, unless other entities
/// still point at it.
pub open spec fn remove_spec(v: Vault, refs: Seq<RefV>, r: Seq<char>) -> Result<(RefV, ChangeV, Seq<char>), Seq<char>> {
    match resolve_spec(v, r, refs) {
        Err(m) => Err(m),
        Ok(e) => {
            let inb = inbound_upto(v.entities@, e, v.entities@.len());
            if inb.len() > 0 {
                Err(refusal_message(inb))
            } else {
                Ok((e, ChangeV::Delete { rel: v.entities@[v.entity_index(e)->0]@.file }, "removed "@ + canonical(e)))
            }
        },
    }
}

/// A planned `remove` (or any single-change plan).
#[derive(Debug)]
pub struct RemovePlan {
    pub eref: EntityRef,
    pub change: Change,
    pub message: String,
}

fn inbound_refs(es: &Vec<Entity>, target: &EntityRef) -> (r: Vec<String>)
    ensures
        strs(r@) == inbound_upto(es@, target@, es@.len() as nat),
{
    let mut out: Vec<String> = Vec::new();
    let mut i: usize = 0;
    while i < es.len()
        invariant
            i <= es.len(),
            strs(out@) == inbound_upto(es@, target@, i as nat),
        decreases es.len() - i,
    {
        let e = &es[i];
        let ghost base = strs(out@);
        if !e.eref.same(target) {
            let rels = &e.fm.relations;
            let flat = flatten_rels(rels);
            let ghost rv = crate::model::relations_view(rels@);
            let ghost f = flat_entries(rv);
            let ghost src = e.eref@;
            let mut k: usize = 0;
            while k < flat.len()
                invariant
                    k <= flat@.len(),
                    flat@.len() == f.len(),
                    rv == crate::model::relations_view(rels@),
                    f == flat_entries(rv),
                    src == e.eref@,
                    forall|q: int|
                        0 <= q < flat@.len() ==> (#[trigger] flat@[q]).0 < rels@.len() && flat@[q].1 < rels@[flat@[q].0 as int].1@.len()
                            && flat_at(rv, flat@[q]) == f[q],
                    strs(out@) == base + inbound_of(src, f.take(k as int), target@),
                decreases flat.len() - k,
            {
                let (a, b) = flat[k];
                let entry = &rels[a].1[b];
                proof {
                    assert(f[k as int] == flat_at(rv, (a, b)));
                    assert(rv[a as int].1[b as int] == entry@);
                    assert(rv[a as int].0 == rels@[a as int].0@);
                    assert(f.take(k + 1).drop_last() =~= f.take(k as int));
                    assert(f.take(k + 1).last() == f[k as int]);
                }
                let names = match EntityRef::parse(entry.target()) {
                    Ok(t) => t.same(target),
                    Err(_) => false,
                };
                if names {
                    let mut line = elide(&e.eref);
                    line.append(" --");
                    line.append(rels[a].0.as_str());
                    line.append("--> it");
                    out.push(line);
                    proof {
                        assert(strs(out@) =~= strs(out@.drop_last()).push(out@.last()@));
                        assert(line@ =~= elided(src) + " --"@ + f[k as int].0 + "--> it"@);
                        assert(base + inbound_of(src, f.take(k + 1), target@) =~= (base + inbound_of(src, f.take(k as int), target@)).push(line@));
                    }
                } else {
                    proof {
                        assert(inbound_of(src, f.take(k + 1), target@) =~= inbound_of(src, f.take(k as int), target@));
                    }
                }
                k = k + 1;
            }
            proof {
                assert(f.take(f.len() as int) =~= f);
                assert(e@.fm.relations == rv);
            }
        } else {
            proof {
                assert(base =~= base + Seq::<Seq<char>>::empty());
            }
        }
        i = i + 1;
    }
    out
}

/// Plan the deletion of an entity; refused while other entities point at it.
pub fn remove(vault: &Vault, r: &str) -> (res: Result<RemovePlan, String>)
    ensures
        exists|t: Seq<(usize, usize)>|
            #[trigger] tally_ok_refs(vault.entities@, t) && match res {
                Ok(p) => remove_spec(*vault, tallied_refs(vault.entities@, t), r@) == Ok::<_, Seq<char>>((p.eref@, p.change@, p.message@)),
                Err(m) => remove_spec(*vault, tallied_refs(vault.entities@, t), r@) == Err::<(RefV, ChangeV, Seq<char>), _>(m@),
            },
{
    let (refs, t) = crate::validate::sorted_refs(&vault.entities);
    proof {
        assert(tally_ok_refs(vault.entities@, t@));
    }
    let eref = resolve_with(vault, &refs, r)?;
    let inbound = inbound_refs(&vault.entities, &eref);
    if inbound.len() > 0 {
        let mut m = concat("refused: ", crate::diag::decimal_string(inbound.len()).as_str());
        m.append(" inbound refs would dangle — unlink them first:\n  ");
        m.append(crate::summary::join_strings(&inbound, "\n  ").as_str());
        proof {
            assert(m@ =~= refusal_message(strs(inbound@)));
        }
        return Err(m);
    }
    let e = vault.get(&eref).unwrap();
    let message = concat("removed ", eref.to_string().as_str());
    Ok(RemovePlan { eref, change: Change::Delete { rel: e.file.clone() }, message })
}

/// Remove refuses exactly when another entity states a ref to the one
/// removed.
pub proof fn lemma_remove_refuses(es: Seq<Entity>, target: RefV, k: nat)
    requires
        k <= es.len(),
    ensures
        inbound_upto(es, target, k).len() > 0 <==> exists|i: int, j: int|
            0 <= i < k && es[i].eref@ != target && 0 <= j < flat_entries(es[i]@.fm.relations).len()
                && crate::model::parse_ref(flat_entries(es[i]@.fm.relations)[j].1.target_text()) == Ok::<RefV, Seq<char>>(target),
    decreases k,
{
    if k > 0 {
        lemma_remove_refuses(es, target, (k - 1) as nat);
        let e = es[k - 1];
        let f = flat_entries(e@.fm.relations);
        lemma_inbound_of(e.eref@, f, target);
        if exists|i: int, j: int|
            0 <= i < k && es[i].eref@ != target && 0 <= j < flat_entries(es[i]@.fm.relations).len()
                && crate::model::parse_ref(flat_entries(es[i]@.fm.relations)[j].1.target_text()) == Ok::<RefV, Seq<char>>(target) {
            let (i, j) = choose|i: int, j: int|
                0 <= i < k && es[i].eref@ != target && 0 <= j < flat_entries(es[i]@.fm.relations).len()
                    && crate::model::parse_ref(flat_entries(es[i]@.fm.relations)[j].1.target_text()) == Ok::<RefV, Seq<char>>(target);
            if i == k - 1 {
                assert(inbound_of(e.eref@, f, target).len() > 0);
            }
        }
    }
}

proof fn lemma_inbound_of(src: RefV, f: Seq<(Seq<char>, crate::model::RelEntryV)>, target: RefV)
    ensures
        inbound_of(src, f, target).len() > 0 <==> exists|j: int|
            0 <= j < f.len() && crate::model::parse_ref((#[trigger] f[j]).1.target_text()) == Ok::<RefV, Seq<char>>(target),
    decreases f.len(),
{
    if f.len() > 0 {
        lemma_inbound_of(src, f.drop_last(), target);
        if exists|j: int| 0 <= j < f.len() && crate::model::parse_ref((#[trigger] f[j]).1.target_text()) == Ok::<RefV, Seq<char>>(target) {
            let j = choose|j: int| 0 <= j < f.len() && crate::model::parse_ref((#[trigger] f[j]).1.target_text()) == Ok::<RefV, Seq<char>>(target);
            if j < f.len() - 1 {
                assert(f.drop_last()[j] == f[j]);
            }
        }
        if exists|j: int| 0 <= j < f.drop_last().len() && crate::model::parse_ref((#[trigger] f.drop_last()[j]).1.target_text()) == Ok::<RefV, Seq<char>>(target) {
            let j = choose|j: int| 0 <= j < f.drop_last().len() && crate::model::parse_ref((#[trigger] f.drop_last()[j]).1.target_text()) == Ok::<RefV, Seq<char>>(target);
            assert(f[j] == f.drop_last()[j]);
        }
    }
}


// ───────────────────────────── rename ─────────────────────────────

/// The entry names `old`: its target parses to that identity.
pub open spec fn names_old(e: crate::model::RelEntryV, old: RefV) -> bool {
    crate::model::parse_ref(e.target_text()) == Ok::<RefV, Seq<char>>(old)
}

/// The entry pointed at `s`, its attributes kept.
pub open spec fn retargeted(e: crate::model::RelEntryV, s: Seq<char>) -> crate::model::RelEntryV {
    match e {
        crate::model::RelEntryV::Bare(_) => crate::model::RelEntryV::Bare(s),
        crate::model::RelEntryV::Object { attrs, .. } => crate::model::RelEntryV::Object { reference: s, attrs },
    }
}

/// The entry, pointed at `s` when it names `old`.
pub open spec fn rewrite_one(e: crate::model::RelEntryV, old: RefV, s: Seq<char>) -> crate::model::RelEntryV {
    if names_old(e, old) {
        retargeted(e, s)
    } else {
        e
    }
}

/// Every entry naming `old` pointed at `s`; the others, and the order, kept.
pub open spec fn rewrite_relations(rels: Seq<(Seq<char>, Seq<crate::model::RelEntryV>)>, old: RefV, s: Seq<char>) -> Seq<(Seq<char>, Seq<crate::model::RelEntryV>)> {
    rels.map_values(|p: (Seq<char>, Seq<crate::model::RelEntryV>)| (p.0, p.1.map_values(|e: crate::model::RelEntryV| rewrite_one(e, old, s))))
}

/// Some entry of the relations names `old`.
pub open spec fn touches(rels: Seq<(Seq<char>, Seq<crate::model::RelEntryV>)>, old: RefV) -> bool {
    exists|i: int, j: int| 0 <= i < rels.len() && 0 <= j < rels[i].1.len() && #[trigger] names_old(rels[i].1[j], old)
}

/// The rewrites of the first `k` entities: each other entity whose
/// frontmatter names `old` is written back with those entries pointed at `s`.
pub open spec fn rewrites_upto(es: Seq<Entity>, old: RefV, s: Seq<char>, k: nat) -> Seq<ChangeV>
    decreases k,
{
    if k == 0 {
        seq![]
    } else {
        let e = es[k - 1]@;
        rewrites_upto(es, old, s, (k - 1) as nat) + if e.eref != old && touches(e.fm.relations, old) {
            seq![ChangeV::Write { rel: e.file, fm: crate::model::FrontMatterV { relations: rewrite_relations(e.fm.relations, old, s), ..e.fm }, body: e.body }]
        } else {
            seq![]
        }
    }
}

/// How often `name` occurs in the bodies of the first `k` entities.
pub open spec fn mentions_upto(es: Seq<Entity>, name: Seq<char>, k: nat) -> nat
    decreases k,
{
    if k == 0 {
        0
    } else {
        mentions_upto(es, name, (k - 1) as nat) + crate::text::count_occurrences(es[k - 1].body@, name)
    }
}

/// The bodies' lengths, each with one to spare: a bound on any count of
/// mentions in them.
pub open spec fn mention_room(es: Seq<Entity>, k: nat) -> nat
    decreases k,
{
    if k == 0 {
        0
    } else {
        mention_room(es, (k - 1) as nat) + es[k - 1].body@.len() + 1
    }
}

/// The identity a rename moves to: the old kind, the given or old
/// namespace, the new name, NFC-normalized.
pub open spec fn renamed_to(old: RefV, name: Seq<char>, ns: Option<Seq<char>>) -> RefV {
    (
        crate::model::nfc_of(old.0),
        crate::model::nfc_of(
            match ns {
                Some(n) => n,
                None => old.1,
            },
        ),
        crate::model::nfc_of(name),
    )
}

pub open spec fn mention_note(m: nat, name: Seq<char>) -> Seq<char> {
    if m > 0 {
        "\n  note: "@ + crate::diag::decimal(m) + " prose mentions of `"@ + name
            + "` in bodies were left untouched (prose is human domain) — review by hand"@
    } else {
        seq![]
    }
}

/// What a rename reports and changes.
pub struct RenameV {
    pub from: RefV,
    pub to: RefV,
    pub changes: Seq<ChangeV>,
    pub rewritten: nat,
    pub mentions: nat,
    pub message: Seq<char>,
}

/// What `rename` plans: the file moved to the new identity's path (its
/// frontmatter and body kept), every inbound ref rewritten to the new
/// identity, and the prose mentions of the old name counted, not touched.
pub open spec fn rename_spec(v: Vault, refs: Seq<RefV>, r: Seq<char>, name: Seq<char>, ns: Option<Seq<char>>) -> Result<RenameV, Seq<char>> {
    match resolve_spec(v, r, refs) {
        Err(m) => Err(m),
        Ok(old) => {
            let new = renamed_to(old, name, ns);
            match crate::model::parse_ref(canonical(new)) {
                Err(m) => Err(m),
                Ok(_) => if new == old {
                    Err("rename to the same identity is a no-op"@)
                } else if v.entity_index(new) is Some {
                    Err(canonical(new) + " already exists"@)
                } else {
                    let n = v.entities@.len();
                    let moved = v.entities@[v.entity_index(old)->0]@;
                    let rw = rewrites_upto(v.entities@, old, elided(new), n);
                    let m = mentions_upto(v.entities@, old.2, n);
                    Ok(RenameV {
                        from: old,
                        to: new,
                        changes: seq![
                            ChangeV::Delete { rel: moved.file },
                            ChangeV::Write { rel: entity_path_text(new), fm: moved.fm, body: moved.body },
                        ] + rw,
                        rewritten: rw.len(),
                        mentions: m,
                        message: "renamed "@ + canonical(old) + " → "@ + canonical(new)
                            + "; rewrote inbound refs in "@ + crate::diag::decimal(rw.len()) + " files"@
                            + mention_note(m, old.2),
                    })
                },
            }
        },
    }
}

/// A planned `rename`.
#[derive(Debug)]
pub struct RenamePlan {
    pub from: EntityRef,
    pub to: EntityRef,
    pub changes: Vec<Change>,
    pub rewritten_files: usize,
    pub prose_mentions: usize,
    pub message: String,
}

pub open spec fn rename_plan_view(p: RenamePlan) -> RenameV {
    RenameV {
        from: p.from@,
        to: p.to@,
        changes: changes_view(p.changes@),
        rewritten: p.rewritten_files as nat,
        mentions: p.prose_mentions as nat,
        message: p.message@,
    }
}

fn retarget_entries(entries: &Vec<RelEntry>, old: &EntityRef, s: &str) -> (r: (Vec<RelEntry>, bool))
    ensures
        crate::model::entries_view(r.0@) == crate::model::entries_view(entries@).map_values(
            |e: crate::model::RelEntryV| rewrite_one(e, old@, s@),
        ),
        r.1 == exists|j: int| 0 <= j < entries@.len() && #[trigger] names_old(crate::model::entries_view(entries@)[j], old@),
{
    let ghost ev = crate::model::entries_view(entries@);
    let mut out: Vec<RelEntry> = Vec::new();
    let mut touched = false;
    let mut j: usize = 0;
    while j < entries.len()
        invariant
            j <= entries.len(),
            ev == crate::model::entries_view(entries@),
            out@.len() == j,
            forall|q: int| 0 <= q < j ==> (#[trigger] out@[q])@ == rewrite_one(ev[q], old@, s@),
            touched == exists|q: int| 0 <= q < j && #[trigger] names_old(ev[q], old@),
        decreases entries.len() - j,
    {
        proof {
            assert(ev[j as int] == entries@[j as int]@);
        }
        let names = match EntityRef::parse(entries[j].target()) {
            Ok(t) => t.same(old),
            Err(_) => false,
        };
        if names {
            let e = match &entries[j] {
                RelEntry::Bare(_) => RelEntry::Bare(owned(s)),
                RelEntry::Object { attrs, .. } => RelEntry::Object { reference: owned(s), attrs: crate::model::duplicate_attrs(attrs) },
            };
            out.push(e);
            touched = true;
        } else {
            out.push(entries[j].duplicate());
        }
        proof {
            assert(names == names_old(ev[j as int], old@));
        }
        j = j + 1;
    }
    proof {
        assert(crate::model::entries_view(out@) =~= ev.map_values(|e: crate::model::RelEntryV| rewrite_one(e, old@, s@)));
    }
    (out, touched)
}

fn retarget_relations(rels: &Vec<(String, Vec<RelEntry>)>, old: &EntityRef, s: &str) -> (r: (Vec<(String, Vec<RelEntry>)>, bool))
    ensures
        crate::model::relations_view(r.0@) == rewrite_relations(crate::model::relations_view(rels@), old@, s@),
        r.1 == touches(crate::model::relations_view(rels@), old@),
{
    let ghost rv = crate::model::relations_view(rels@);
    let mut out: Vec<(String, Vec<RelEntry>)> = Vec::new();
    let mut touched = false;
    let mut i: usize = 0;
    while i < rels.len()
        invariant
            i <= rels.len(),
            rv == crate::model::relations_view(rels@),
            out@.len() == i,
            forall|q: int| 0 <= q < i ==> (#[trigger] out@[q]).0@ == rv[q].0 && crate::model::entries_view(out@[q].1@)
                == rv[q].1.map_values(|e: crate::model::RelEntryV| rewrite_one(e, old@, s@)),
            touched == exists|a: int, b: int| 0 <= a < i && 0 <= b < rv[a].1.len() && #[trigger] names_old(rv[a].1[b], old@),
        decreases rels.len() - i,
    {
        proof {
            assert(rv[i as int] == (rels@[i as int].0@, crate::model::entries_view(rels@[i as int].1@)));
        }
        let (es, t) = retarget_entries(&rels[i].1, old, s);
        proof {
            if t {
                let b = choose|b: int| 0 <= b < rels@[i as int].1@.len() && #[trigger] names_old(crate::model::entries_view(rels@[i as int].1@)[b], old@);
                assert(names_old(rv[i as int].1[b], old@));
            }
            if !t && !touched {
                assert forall|a: int, b: int| 0 <= a <= i && 0 <= b < rv[a].1.len() implies !#[trigger] names_old(rv[a].1[b], old@) by {
                    if a == i {
                        assert(rv[a].1[b] == crate::model::entries_view(rels@[i as int].1@)[b]);
                    }
                }
            }
        }
        out.push((rels[i].0.clone(), es));
        touched = touched || t;
        i = i + 1;
    }
    proof {
        assert(crate::model::relations_view(out@) =~= rewrite_relations(rv, old@, s@));
    }
    (out, touched)
}

/// A rename's rewrite of a frontmatter: afterwards no entry names the old
/// identity; each entry that named it names the new one, its attributes
/// kept; every other entry, and the order, stay as they were.
pub proof fn lemma_rewrite_retargets(rels: Seq<(Seq<char>, Seq<crate::model::RelEntryV>)>, old: RefV, new: RefV)
    requires
        new != old,
        crate::model::is_valid_word(new.0),
        crate::model::is_valid_word(new.1),
        crate::model::is_valid_word(new.2),
        crate::model::nfc_of(new.0) == new.0,
        crate::model::nfc_of(new.1) == new.1,
        crate::model::nfc_of(new.2) == new.2,
    ensures
        ({
            let rw = rewrite_relations(rels, old, elided(new));
            &&& rw.len() == rels.len()
            &&& !touches(rw, old)
            &&& forall|i: int, j: int|
                0 <= i < rels.len() && 0 <= j < rels[i].1.len() ==> {
                    &&& rw[i].0 == rels[i].0
                    &&& rw[i].1.len() == rels[i].1.len()
                    &&& (names_old(rels[i].1[j], old) ==> names_old(#[trigger] rw[i].1[j], new)
                        && rw[i].1[j] == retargeted(rels[i].1[j], elided(new)))
                    &&& (!names_old(rels[i].1[j], old) ==> rw[i].1[j] == rels[i].1[j])
                }
        }),
{
    lemma_elided_parses_back(new);
    let s = elided(new);
    let rw = rewrite_relations(rels, old, s);
    assert forall|i: int, j: int| 0 <= i < rels.len() && 0 <= j < rels[i].1.len() implies {
        &&& rw[i].0 == rels[i].0
        &&& rw[i].1.len() == rels[i].1.len()
        &&& (names_old(rels[i].1[j], old) ==> names_old(#[trigger] rw[i].1[j], new)
            && rw[i].1[j] == retargeted(rels[i].1[j], s))
        &&& (!names_old(rels[i].1[j], old) ==> rw[i].1[j] == rels[i].1[j])
    } by {
        assert(rw[i].1[j] == rewrite_one(rels[i].1[j], old, s));
        assert(retargeted(rels[i].1[j], s).target_text() == s);
    }
    if touches(rw, old) {
        let (i, j) = choose|i: int, j: int| 0 <= i < rw.len() && 0 <= j < rw[i].1.len() && #[trigger] names_old(rw[i].1[j], old);
        assert(rw[i].1[j] == rewrite_one(rels[i].1[j], old, s));
        assert(retargeted(rels[i].1[j], s).target_text() == s);
    }
}

proof fn lemma_mentions_room(es: Seq<Entity>, name: Seq<char>, k: nat)
    requires
        k <= es.len(),
    ensures
        mentions_upto(es, name, k) <= mention_room(es, k),
    decreases k,
{
    if k > 0 {
        lemma_mentions_room(es, name, (k - 1) as nat);
        crate::text::lemma_count_bound(es[k - 1].body@, name);
    }
}

proof fn lemma_room_grows(es: Seq<Entity>, j: nat, k: nat)
    requires
        j <= k <= es.len(),
    ensures
        mention_room(es, j) <= mention_room(es, k),
    decreases k,
{
    if j < k {
        lemma_room_grows(es, j, (k - 1) as nat);
    }
}

fn count_mentions(es: &Vec<Entity>, name: &str) -> (m: usize)
    requires
        mention_room(es@, es@.len() as nat) <= usize::MAX,
    ensures
        m == mentions_upto(es@, name@, es@.len() as nat),
{
    let mut m: usize = 0;
    let mut i: usize = 0;
    while i < es.len()
        invariant
            i <= es.len(),
            mention_room(es@, es@.len() as nat) <= usize::MAX,
            m == mentions_upto(es@, name@, i as nat),
        decreases es.len() - i,
    {
        proof {
            lemma_mentions_room(es@, name@, (i + 1) as nat);
            lemma_room_grows(es@, (i + 1) as nat, es@.len() as nat);
        }
        m = m + crate::text::count_str(es[i].body.as_str(), name);
        i = i + 1;
    }
    m
}

/// Plan renaming an entity to `new_name` (and, when given, the namespace
/// `new_ns`): the file moves to the new identity's path and every
/// frontmatter ref to the old identity is rewritten; prose is left alone.
pub fn rename(vault: &Vault, r: &str, new_name: &str, new_ns: Option<&str>) -> (res: Result<RenamePlan, String>)
    requires
        mention_room(vault.entities@, vault.entities@.len() as nat) <= usize::MAX,
    ensures
        exists|t: Seq<(usize, usize)>|
            #[trigger] tally_ok_refs(vault.entities@, t) && match res {
                Ok(p) => rename_spec(*vault, tallied_refs(vault.entities@, t), r@, new_name@, crate::query::opt_str(new_ns)) == Ok::<_, Seq<char>>(rename_plan_view(p)),
                Err(m) => rename_spec(*vault, tallied_refs(vault.entities@, t), r@, new_name@, crate::query::opt_str(new_ns)) == Err::<RenameV, _>(m@),
            },
{
    let (refs, t) = crate::validate::sorted_refs(&vault.entities);
    proof {
        assert(tally_ok_refs(vault.entities@, t@));
    }
    let old = resolve_with(vault, &refs, r)?;
    let ns = match new_ns {
        Some(n) => n,
        None => old.ns.as_str(),
    };
    let new = EntityRef::new(old.kind.as_str(), ns, new_name);
    let text = new.to_string();
    if let Err(m) = EntityRef::parse(text.as_str()) {
        return Err(m);
    }
    if new.same(&old) {
        return Err(owned("rename to the same identity is a no-op"));
    }
    if vault.get(&new).is_some() {
        return Err(concat(text.as_str(), " already exists"));
    }
    let moved = vault.get(&old).unwrap();
    let s = elide(&new);
    let mut changes: Vec<Change> = Vec::new();
    changes.push(Change::Delete { rel: moved.file.clone() });
    changes.push(Change::Write { rel: entity_path(&new), fm: moved.fm.duplicate(), body: moved.body.clone() });
    let ghost head = changes_view(changes@);
    let es = &vault.entities;
    let mut count: usize = 0;
    let mut i: usize = 0;
    while i < es.len()
        invariant
            i <= es.len(),
            changes@.len() == 2 + count,
            count <= i,
            changes_view(changes@) == head + rewrites_upto(es@, old@, s@, i as nat),
            count == rewrites_upto(es@, old@, s@, i as nat).len(),
        decreases es.len() - i,
    {
        let e = &es[i];
        let ghost before = changes_view(changes@);
        if !e.eref.same(&old) {
            let (rels, touched) = retarget_relations(&e.fm.relations, &old, s.as_str());
            if touched {
                let mut fm = e.fm.duplicate();
                fm.relations = rels;
                changes.push(Change::Write { rel: e.file.clone(), fm, body: e.body.clone() });
                count = count + 1;
                proof {
                    assert(changes_view(changes@) =~= before.push(changes@.last()@));
                }
            }
        }
        proof {
            assert(es@[i as int]@.fm.relations == crate::model::relations_view(e.fm.relations@));
            let tail = rewrites_upto(es@, old@, s@, (i + 1) as nat);
            assert(changes_view(changes@) =~= head + tail);
        }
        i = i + 1;
    }
    let mentions = count_mentions(es, old.name.as_str());
    let mut message = concat("renamed ", old.to_string().as_str());
    message.append(" → ");
    message.append(text.as_str());
    message.append("; rewrote inbound refs in ");
    message.append(crate::diag::decimal_string(count).as_str());
    message.append(" files");
    if mentions > 0 {
        message.append("\n  note: ");
        message.append(crate::diag::decimal_string(mentions).as_str());
        message.append(" prose mentions of `");
        message.append(old.name.as_str());
        message.append("` in bodies were left untouched (prose is human domain) — review by hand");
    }
    proof {
        assert(message@ =~= "renamed "@ + canonical(old@) + " → "@ + canonical(new@)
            + "; rewrote inbound refs in "@ + crate::diag::decimal(count as nat) + " files"@
            + mention_note(mentions as nat, old@.2));
    }
    let plan = RenamePlan { from: old, to: new, changes, rewritten_files: count, prose_mentions: mentions, message };
    proof {
        let v = *vault;
        let rs = tallied_refs(vault.entities@, t@);
        assert(refs_view(refs@) == rs);
        assert(resolve_spec(v, r@, rs) == Ok::<RefV, Seq<char>>(plan.from@));
        assert(plan.to@ == renamed_to(plan.from@, new_name@, crate::query::opt_str(new_ns)));
        let idx = v.entity_index(plan.from@)->0;
        assert(moved@ == v.entities@[idx]@);
        assert(head == seq![
            ChangeV::Delete { rel: moved@.file },
            ChangeV::Write { rel: entity_path_text(plan.to@), fm: moved@.fm, body: moved@.body },
        ]);
        assert(changes_view(plan.changes@) == head + rewrites_upto(vault.entities@, plan.from@, elided(plan.to@), vault.entities@.len() as nat));
        let want = rename_spec(v, rs, r@, new_name@, crate::query::opt_str(new_ns));
        assert(want->Ok_0.changes == changes_view(plan.changes@));
        assert(want->Ok_0.message == plan.message@);
        assert(want == Ok::<_, Seq<char>>(rename_plan_view(plan)));
    }
    Ok(plan)
}

/// The one-line summary used in the reports of operations: the body's
/// first sentence.
pub fn summary_of(e: &Entity) -> (r: String)
    ensures
        r@ == crate::model::first_sentence_of(e.body@),
{
    crate::model::first_sentence(e.body.as_str())
}

// ───────────────────────────── relations given as arguments ─────────────────────────────

pub open spec fn rel_arg_message(a: Seq<char>) -> Seq<char> {
    "--rel takes type=target, got `"@ + a + "`"@
}

/// The entries of type `t` in a keyed list, none when it has none.
pub open spec fn group_of(
    m: Seq<(Seq<char>, Seq<crate::model::RelEntryV>)>,
    t: Seq<char>,
) -> Seq<crate::model::RelEntryV> {
    match crate::model::key_index(m.map_values(|p: (Seq<char>, Seq<crate::model::RelEntryV>)| p.0), t) {
        Some(j) => m[j].1,
        None => seq![],
    }
}

/// The first `k` arguments `type=target`, each target added to its type's
/// entries; the first argument without `=` is refused.
pub open spec fn rel_args_upto(args: Seq<Seq<char>>, k: nat) -> Result<
    Seq<(Seq<char>, Seq<crate::model::RelEntryV>)>,
    Seq<char>,
>
    decreases k,
{
    if k == 0 {
        Ok(seq![])
    } else {
        match rel_args_upto(args, (k - 1) as nat) {
            Err(e) => Err(e),
            Ok(m) => {
                let a = args[k - 1];
                match crate::text::first_index(a, '=') {
                    None => Err(rel_arg_message(a)),
                    Some(i) => {
                        let t = a.subrange(0, i);
                        Ok(keyed_set(m, t, group_of(m, t).push(crate::model::RelEntryV::Bare(a.subrange(i + 1, a.len() as int)))))
                    },
                }
            },
        }
    }
}

proof fn lemma_rel_args_err(args: Seq<Seq<char>>, k: nat, n: nat, e: Seq<char>)
    requires
        k <= n,
        rel_args_upto(args, k) == Err::<Seq<(Seq<char>, Seq<crate::model::RelEntryV>)>, Seq<char>>(e),
    ensures
        rel_args_upto(args, n) == Err::<Seq<(Seq<char>, Seq<crate::model::RelEntryV>)>, Seq<char>>(e),
    decreases n,
{
    if n > k {
        lemma_rel_args_err(args, k, (n - 1) as nat, e);
    }
}

/// The relations given as `type=target` arguments, grouped by type in key
/// order, targets in the order given.
pub fn relation_args(args: &Vec<String>) -> (r: Result<Vec<(String, Vec<RelEntry>)>, String>)
    ensures
        match r {
            Ok(m) => rel_args_upto(strs(args@), args@.len() as nat) == Ok::<
                Seq<(Seq<char>, Seq<crate::model::RelEntryV>)>,
                Seq<char>,
            >(crate::model::relations_view(m@)),
            Err(e) => rel_args_upto(strs(args@), args@.len() as nat) == Err::<
                Seq<(Seq<char>, Seq<crate::model::RelEntryV>)>,
                Seq<char>,
            >(e@),
        },
{
    let ghost av = strs(args@);
    let mut m: Vec<(String, Vec<RelEntry>)> = Vec::new();
    proof {
        assert(crate::model::relations_view(m@) =~= Seq::<(Seq<char>, Seq<crate::model::RelEntryV>)>::empty());
    }
    let mut i: usize = 0;
    while i < args.len()
        invariant
            i <= args@.len(),
            av == strs(args@),
            rel_args_upto(av, i as nat) == Ok::<Seq<(Seq<char>, Seq<crate::model::RelEntryV>)>, Seq<char>>(
                crate::model::relations_view(m@),
            ),
        decreases args.len() - i,
    {
        let cs = crate::text::chars_of(args[i].as_str());
        proof {
            assert(av[i as int] == args@[i as int]@);
        }
        match crate::text::find_char(&cs, '=') {
            None => {
                let mut msg = concat("--rel takes type=target, got `", args[i].as_str());
                msg.append("`");
                proof {
                    lemma_rel_args_err(av, (i + 1) as nat, av.len(), msg@);
                }
                return Err(msg);
            },
            Some(p) => {
                let t = string_of_range(&cs, 0, p);
                let target = string_of_range(&cs, p + 1, cs.len());
                let ghost mv = crate::model::relations_view(m@);
                let mut es = match crate::model::find_key(&m, t.as_str()) {
                    Some(j) => crate::model::duplicate_entries(&m[j].1),
                    None => Vec::new(),
                };
                proof {
                    assert(crate::model::keys_of(m@) =~= mv.map_values(
                        |q: (Seq<char>, Seq<crate::model::RelEntryV>)| q.0,
                    ));
                    assert(crate::model::entries_view(es@) == group_of(mv, t@));
                }
                let ghost eb = es@;
                es.push(RelEntry::Bare(target));
                proof {
                    assert(crate::model::entries_view(es@) =~= crate::model::entries_view(eb).push(
                        crate::model::RelEntryV::Bare(cs@.subrange(p + 1, cs@.len() as int)),
                    ));
                }
                m = set_group(m, t, es);
            },
        }
        i = i + 1;
    }
    Ok(m)
}

} // verus!
