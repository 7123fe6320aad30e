//! The constitutional operations: changes to the schema itself (a kind or a
//! relation type declared, a field set, a kind or relation type renamed),
//! with the entity files a rename has to rewrite. Like the entity
//! operations, each returns a plan; the plan passes the whole-vault check
//! before anything is written.

use vstd::prelude::*;
use crate::model::{
    key_index, keys_of, opt_strs, opt_text, Entity, EntityRef, EntityV, KindDecl,
    Propagation, RelEntry, RelationDecl, RelationDeclV, Schema, SchemaV,
};
use crate::ops::{changes_view, key_slot, keyed_remove, keyed_set, Change, ChangeV};
use crate::text::{chars_of, concat, first_index, owned, string_of, string_of_range, trim};
use crate::vault::{entities_view, Vault};

verus! {

// ───────────────────────────── keyed schema maps ─────────────────────────────

pub open spec fn kinds_view(m: Seq<(String, KindDecl)>) -> Seq<(Seq<char>, Option<Seq<char>>)> {
    m.map_values(|p: (String, KindDecl)| (p.0@, opt_text(p.1.description)))
}

pub open spec fn decls_view(m: Seq<(String, RelationDecl)>) -> Seq<(Seq<char>, RelationDeclV)> {
    m.map_values(|p: (String, RelationDecl)| (p.0@, p.1@))
}

pub open spec fn key_list<V>(m: Seq<(Seq<char>, V)>) -> Seq<Seq<char>> {
    m.map_values(|p: (Seq<char>, V)| p.0)
}

proof fn lemma_key_slot_range(keys: Seq<Seq<char>>, k: Seq<char>)
    ensures
        0 <= key_slot(keys, k) <= keys.len(),
    decreases keys.len(),
{
    if keys.len() > 0 {
        lemma_key_slot_range(keys.drop_first(), k);
    }
}

/// Where key `k` goes in a sorted keyed list.
fn slot_for<V>(m: &Vec<(String, V)>, k: &str) -> (r: usize)
    ensures
        r as int == key_slot(keys_of(m@), k@),
        r <= m@.len(),
{
    let ghost ks = keys_of(m@);
    proof {
        lemma_key_slot_range(ks, k@);
    }
    let mut j: usize = 0;
    assert(ks.skip(0) =~= ks);
    while j < m.len()
        invariant
            j <= m.len(),
            ks == keys_of(m@),
            key_slot(ks, k@) == j + key_slot(ks.skip(j as int), k@),
        decreases m.len() - j,
    {
        proof {
            assert(ks[j as int] == m@[j as int].0@);
            assert(ks.skip(j as int).drop_first() =~= ks.skip(j + 1));
        }
        match crate::text::compare_str(k, m[j].0.as_str()) {
            crate::text::Order::Less => {
                return j;
            },
            _ => {
                proof {
                    crate::text::lemma_text_lt_total(k@, ks[j as int]);
                }
            },
        }
        j = j + 1;
    }
    proof {
        assert(ks.skip(j as int) =~= Seq::<Seq<char>>::empty());
    }
    j
}

/// Declare (or redeclare) kind `k`.
fn put_kind(m: Vec<(String, KindDecl)>, k: String, d: KindDecl) -> (r: Vec<(String, KindDecl)>)
    ensures
        kinds_view(r@) == keyed_set(kinds_view(m@), k@, opt_text(d.description)),
{
    let ghost mv = kinds_view(m@);
    assert(key_list(mv) =~= keys_of(m@));
    let ghost kv = k@;
    let ghost dv = opt_text(d.description);
    let mut m = m;
    match crate::model::find_key(&m, k.as_str()) {
        Some(i) => {
            m.set(i, (k, d));
            assert(kinds_view(m@) =~= mv.update(i as int, (kv, dv)));
        },
        None => {
            let pos = slot_for(&m, k.as_str());
            m.insert(pos, (k, d));
            assert(kinds_view(m@) =~= mv.insert(pos as int, (kv, dv)));
        },
    }
    m
}

fn drop_kind(m: Vec<(String, KindDecl)>, k: &str) -> (r: Vec<(String, KindDecl)>)
    ensures
        kinds_view(r@) == keyed_remove(kinds_view(m@), k@),
{
    let ghost mv = kinds_view(m@);
    assert(key_list(mv) =~= keys_of(m@));
    let mut m = m;
    match crate::model::find_key(&m, k) {
        Some(i) => {
            m.remove(i);
            assert(kinds_view(m@) =~= mv.remove(i as int));
        },
        None => {},
    }
    m
}

fn put_decl(m: Vec<(String, RelationDecl)>, k: String, d: RelationDecl) -> (r: Vec<(String, RelationDecl)>)
    ensures
        decls_view(r@) == keyed_set(decls_view(m@), k@, d@),
{
    let ghost mv = decls_view(m@);
    assert(key_list(mv) =~= keys_of(m@));
    let ghost kv = k@;
    let ghost dv = d@;
    let mut m = m;
    match crate::model::find_key(&m, k.as_str()) {
        Some(i) => {
            m.set(i, (k, d));
            assert(decls_view(m@) =~= mv.update(i as int, (kv, dv)));
        },
        None => {
            let pos = slot_for(&m, k.as_str());
            m.insert(pos, (k, d));
            assert(decls_view(m@) =~= mv.insert(pos as int, (kv, dv)));
        },
    }
    m
}

fn drop_decl(m: Vec<(String, RelationDecl)>, k: &str) -> (r: Vec<(String, RelationDecl)>)
    ensures
        decls_view(r@) == keyed_remove(decls_view(m@), k@),
{
    let ghost mv = decls_view(m@);
    assert(key_list(mv) =~= keys_of(m@));
    let mut m = m;
    match crate::model::find_key(&m, k) {
        Some(i) => {
            m.remove(i);
            assert(decls_view(m@) =~= mv.remove(i as int));
        },
        None => {},
    }
    m
}

// ───────────────────────────── plans ─────────────────────────────

/// A planned schema change: the new schema, the entity files it rewrites
/// or removes, the rewritten entities as they will read, the files
/// removed, and the report.
#[derive(Debug)]
pub struct SchemaPlan {
    pub schema: Schema,
    pub changes: Vec<Change>,
    pub mutated: Vec<Entity>,
    pub deleted: Vec<String>,
    pub message: String,
}

pub struct SchemaPlanV {
    pub schema: SchemaV,
    pub changes: Seq<ChangeV>,
    pub mutated: Seq<EntityV>,
    pub deleted: Seq<Seq<char>>,
    pub message: Seq<char>,
}

pub open spec fn schema_plan_view(p: SchemaPlan) -> SchemaPlanV {
    SchemaPlanV {
        schema: p.schema@,
        changes: changes_view(p.changes@),
        mutated: entities_view(p.mutated@),
        deleted: crate::model::strs(p.deleted@),
        message: p.message@,
    }
}

pub open spec fn plan_result(r: Result<SchemaPlan, String>) -> Result<SchemaPlanV, Seq<char>> {
    match r {
        Ok(p) => Ok(schema_plan_view(p)),
        Err(m) => Err(m@),
    }
}

/// A change to the schema alone.
pub open spec fn schema_only(s: SchemaV, message: Seq<char>) -> SchemaPlanV {
    SchemaPlanV { schema: s, changes: seq![], mutated: seq![], deleted: seq![], message }
}

fn schema_only_plan(s: Schema, message: String) -> (r: SchemaPlan)
    ensures
        schema_plan_view(r) == schema_only(s@, message@),
{
    let r = SchemaPlan { schema: s, changes: Vec::new(), mutated: Vec::new(), deleted: Vec::new(), message };
    assert(changes_view(r.changes@) =~= seq![]);
    assert(entities_view(r.mutated@) =~= seq![]);
    assert(crate::model::strs(r.deleted@) =~= seq![]);
    r
}

// ───────────────────────────── add-kind ─────────────────────────────

pub open spec fn add_kind_spec(s: SchemaV, name: Seq<char>, description: Option<Seq<char>>) -> Result<SchemaPlanV, Seq<char>> {
    if key_index(key_list(s.kinds), name) is Some {
        Err("kind `"@ + name + "` already declared"@)
    } else {
        Ok(schema_only(
            SchemaV { kinds: keyed_set(s.kinds, name, description), ..s },
            "declared kind `"@ + name + "` — cite the charter question it serves in your commit"@,
        ))
    }
}

/// Plan declaring kind `name`.
pub fn add_kind(vault: &Vault, name: &str, description: Option<String>) -> (r: Result<SchemaPlan, String>)
    ensures
        plan_result(r) == add_kind_spec(vault.schema@, name@, opt_text(description)),
{
    let ghost sv = vault.schema@;
    assert(key_list(sv.kinds) =~= keys_of(vault.schema.kinds@));
    if crate::model::find_key(&vault.schema.kinds, name).is_some() {
        let mut m = concat("kind `", name);
        m.append("` already declared");
        return Err(m);
    }
    let d = vault.schema.duplicate();
    let kinds = put_kind(d.kinds, owned(name), KindDecl { description });
    let s = Schema {
        api_version: d.api_version,
        name: d.name,
        title: d.title,
        root: d.root,
        charter: d.charter,
        ignore: d.ignore,
        exclusions: d.exclusions,
        kinds,
        relations: d.relations,
    };
    let mut m = concat("declared kind `", name);
    m.append("` — cite the charter question it serves in your commit");
    let p = schema_only_plan(s, m);
    assert(s@ == SchemaV { kinds: keyed_set(sv.kinds, name@, opt_text(description)), ..sv });
    Ok(p)
}

// ───────────────────────────── add-relation ─────────────────────────────

/// What `add_relation` is asked to declare.
pub struct RelationSpec {
    pub description: String,
    pub propagation: Option<Propagation>,
    pub symmetric: bool,
    pub acyclic: bool,
    pub from: Option<Vec<String>>,
    pub to: Option<Vec<String>>,
}

impl Default for RelationSpec {
    fn default() -> (r: Self)
        ensures
            r.description@ == Seq::<char>::empty(),
            r.propagation is None,
            !r.symmetric,
            !r.acyclic,
            r.from is None,
            r.to is None,
    {
        RelationSpec { description: String::new(), propagation: None, symmetric: false, acyclic: false, from: None, to: None }
    }
}

pub open spec fn declared_relation(spec: RelationSpec) -> RelationDeclV {
    RelationDeclV {
        description: Some(spec.description@),
        propagation: match spec.propagation {
            Some(p) => p,
            None => Propagation::ToSource,
        },
        symmetric: spec.symmetric,
        from: opt_strs(spec.from),
        to: opt_strs(spec.to),
        acyclic: spec.acyclic,
    }
}

pub open spec fn direction_message(name: Seq<char>) -> Seq<char> {
    "a relation must state its reading direction (\"A "@ + name
        + " B —— A 是…，B 是…\") — direction confusion corrupts silently"@
}

pub open spec fn add_relation_spec(s: SchemaV, name: Seq<char>, spec: RelationSpec) -> Result<SchemaPlanV, Seq<char>> {
    if key_index(key_list(s.relations), name) is Some {
        Err("relation `"@ + name + "` already declared"@)
    } else if trim(spec.description@).len() == 0 {
        Err(direction_message(name))
    } else {
        Ok(schema_only(
            SchemaV { relations: keyed_set(s.relations, name, declared_relation(spec)), ..s },
            "declared relation `"@ + name + "` — cite the charter question it serves"@,
        ))
    }
}

/// Plan declaring relation type `name`; its description must say how it
/// reads.
pub fn add_relation(vault: &Vault, name: &str, spec: RelationSpec) -> (r: Result<SchemaPlan, String>)
    ensures
        plan_result(r) == add_relation_spec(vault.schema@, name@, spec),
{
    let ghost sv = vault.schema@;
    let ghost sp = spec;
    assert(key_list(sv.relations) =~= keys_of(vault.schema.relations@));
    if crate::model::find_key(&vault.schema.relations, name).is_some() {
        let mut m = concat("relation `", name);
        m.append("` already declared");
        return Err(m);
    }
    if crate::text::blank(spec.description.as_str()) {
        let mut m = concat("a relation must state its reading direction (\"A ", name);
        m.append(" B —— A 是…，B 是…\") — direction confusion corrupts silently");
        return Err(m);
    }
    let propagation = match spec.propagation {
        Some(p) => p,
        None => Propagation::ToSource,
    };
    let decl = RelationDecl {
        description: Some(spec.description),
        propagation,
        symmetric: spec.symmetric,
        from: spec.from,
        to: spec.to,
        acyclic: spec.acyclic,
    };
    assert(decl@ == declared_relation(sp));
    let d = vault.schema.duplicate();
    let relations = put_decl(d.relations, owned(name), decl);
    let s = Schema {
        api_version: d.api_version,
        name: d.name,
        title: d.title,
        root: d.root,
        charter: d.charter,
        ignore: d.ignore,
        exclusions: d.exclusions,
        kinds: d.kinds,
        relations,
    };
    let mut m = concat("declared relation `", name);
    m.append("` — cite the charter question it serves");
    let p = schema_only_plan(s, m);
    assert(s@ == SchemaV { relations: keyed_set(sv.relations, name@, declared_relation(sp)), ..sv });
    Ok(p)
}


// ───────────────────────────── set ─────────────────────────────

/// What `serde_norway::from_str::<String>` reads from a YAML text: the string
/// scalar it holds, or nothing.
pub uninterp spec fn yaml_string_of(text: Seq<char>) -> Option<Seq<char>>;

/// `serde_norway::from_str::<String>`: a YAML text read as one string
/// scalar. The result depends on the text alone; YAML's grammar is not
/// restated here.
#[verifier::external_body]
fn yaml_string(text: &str) -> (r: Option<String>)
    ensures
        match r {
            Some(s) => yaml_string_of(text@) == Some(s@),
            None => yaml_string_of(text@) is None,
        },
{
    serde_norway::from_str::<String>(text).ok()
}

/// `path.splitn(3, '.')` when it yields three parts.
pub open spec fn path_fields(p: Seq<char>) -> Option<(Seq<char>, Seq<char>, Seq<char>)> {
    match first_index(p, '.') {
        None => None,
        Some(i) => {
            let rest = p.skip(i + 1);
            match first_index(rest, '.') {
                None => None,
                Some(j) => Some((p.take(i), rest.take(j), rest.skip(j + 1))),
            }
        },
    }
}

/// `s.split(c)`: the pieces between the separators, in order.
pub open spec fn split_char(s: Seq<char>, c: char) -> Seq<Seq<char>>
    decreases s.len(),
{
    if s.len() == 0 {
        seq![seq![]]
    } else {
        let p = split_char(s.drop_last(), c);
        if s.last() == c {
            p.push(seq![])
        } else {
            p.update(p.len() - 1, p.last().push(s.last()))
        }
    }
}

proof fn lemma_split_nonempty(s: Seq<char>, c: char)
    ensures
        split_char(s, c).len() >= 1,
    decreases s.len(),
{
    if s.len() > 0 {
        lemma_split_nonempty(s.drop_last(), c);
    }
}

/// A comma-separated list, each item trimmed.
pub open spec fn comma_list(s: Seq<char>) -> Seq<Seq<char>> {
    split_char(s, ',').map_values(|p: Seq<char>| trim(p))
}

/// `str::parse::<bool>`.
pub open spec fn bool_named(s: Seq<char>) -> Option<bool> {
    if s == "true"@ {
        Some(true)
    } else if s == "false"@ {
        Some(false)
    } else {
        None
    }
}

/// The propagation spelled `s` in the schema.
pub open spec fn propagation_named(s: Seq<char>) -> Option<Propagation> {
    if s == "to-source"@ {
        Some(Propagation::ToSource)
    } else if s == "to-target"@ {
        Some(Propagation::ToTarget)
    } else if s == "both"@ {
        Some(Propagation::Both)
    } else if s == "none"@ {
        Some(Propagation::Neither)
    } else {
        None
    }
}

/// A relation declaration with `field` set to `value`; `yaml` is what the
/// YAML reader makes of `value`.
pub open spec fn set_relation_field(d: RelationDeclV, field: Seq<char>, value: Seq<char>, yaml: Option<Seq<char>>) -> Result<RelationDeclV, Seq<char>> {
    if field == "description"@ {
        Ok(RelationDeclV { description: Some(value), ..d })
    } else if field == "propagation"@ {
        match yaml {
            Some(y) => match propagation_named(y) {
                Some(p) => Ok(RelationDeclV { propagation: p, ..d }),
                None => Err("propagation is to-source|to-target|both|none"@),
            },
            None => Err("propagation is to-source|to-target|both|none"@),
        }
    } else if field == "symmetric"@ {
        match bool_named(value) {
            Some(b) => Ok(RelationDeclV { symmetric: b, ..d }),
            None => Err("true|false"@),
        }
    } else if field == "acyclic"@ {
        match bool_named(value) {
            Some(b) => Ok(RelationDeclV { acyclic: b, ..d }),
            None => Err("true|false"@),
        }
    } else if field == "from"@ {
        Ok(RelationDeclV { from: Some(comma_list(value)), ..d })
    } else if field == "to"@ {
        Ok(RelationDeclV { to: Some(comma_list(value)), ..d })
    } else {
        Err("relations have no settable field `"@ + field + "`"@)
    }
}

/// What `set` plans for `(kinds|relations).<name>.<field> = value`.
pub open spec fn set_spec(s: SchemaV, path: Seq<char>, value: Seq<char>, yaml: Option<Seq<char>>) -> Result<SchemaPlanV, Seq<char>> {
    match path_fields(path) {
        None => Err("path is (kinds|relations).<name>.<field>"@),
        Some(f) => {
            let (section, name, field) = f;
            let message = "set "@ + path + " = "@ + value;
            if section == "kinds"@ {
                match key_index(key_list(s.kinds), name) {
                    None => Err("no kind `"@ + name + "`"@),
                    Some(i) => if field == "description"@ {
                        Ok(schema_only(SchemaV { kinds: s.kinds.update(i, (name, Some(value))), ..s }, message))
                    } else {
                        Err("kinds have no settable field `"@ + field + "` (only description)"@)
                    },
                }
            } else if section == "relations"@ {
                match key_index(key_list(s.relations), name) {
                    None => Err("no relation `"@ + name + "`"@),
                    Some(i) => match set_relation_field(s.relations[i].1, field, value, yaml) {
                        Err(m) => Err(m),
                        Ok(d) => Ok(schema_only(SchemaV { relations: s.relations.update(i, (name, d)), ..s }, message)),
                    },
                }
            } else {
                Err("unknown section `"@ + section + "` — kinds or relations"@)
            }
        },
    }
}

fn split_path(path: &str) -> (r: Option<(String, String, String)>)
    ensures
        match r {
            Some(t) => path_fields(path@) == Some((t.0@, t.1@, t.2@)),
            None => path_fields(path@) is None,
        },
{
    let v = chars_of(path);
    let i = match crate::text::find_char(&v, '.') {
        None => {
            return None;
        },
        Some(i) => i,
    };
    let rest = string_of_range(&v, i + 1, v.len());
    assert(v@.subrange(i + 1, v.len() as int) =~= v@.skip(i + 1));
    let rv = chars_of(rest.as_str());
    let j = match crate::text::find_char(&rv, '.') {
        None => {
            return None;
        },
        Some(j) => j,
    };
    assert(v@.subrange(0, i as int) =~= v@.take(i as int));
    assert(rv@.subrange(0, j as int) =~= rv@.take(j as int));
    assert(rv@.subrange(j + 1, rv.len() as int) =~= rv@.skip(j + 1));
    Some((string_of_range(&v, 0, i), string_of_range(&rv, 0, j), string_of_range(&rv, j + 1, rv.len())))
}

fn split_comma_list(value: &str) -> (r: Vec<String>)
    ensures
        crate::model::strs(r@) == comma_list(value@),
{
    let v = chars_of(value);
    let mut pieces: Vec<String> = Vec::new();
    let mut cur: Vec<char> = Vec::new();
    let mut i: usize = 0;
    while i < v.len()
        invariant
            i <= v.len(),
            crate::model::strs(pieces@).push(cur@) == split_char(v@.take(i as int), ','),
        decreases v.len() - i,
    {
        proof {
            assert(v@.take(i + 1).drop_last() =~= v@.take(i as int));
            lemma_split_nonempty(v@.take(i as int), ',');
        }
        let ghost before = crate::model::strs(pieces@);
        let ghost old_cur = cur@;
        if v[i] == ',' {
            pieces.push(string_of(&cur));
            cur = Vec::new();
            proof {
                assert(crate::model::strs(pieces@) =~= before.push(old_cur));
                assert(crate::model::strs(pieces@).push(cur@) =~= split_char(v@.take(i + 1), ','));
            }
        } else {
            cur.push(v[i]);
            proof {
                assert(crate::model::strs(pieces@).push(cur@) =~= before.push(old_cur).update(before.len() as int, old_cur.push(v@[i as int])));
            }
        }
        i = i + 1;
    }
    pieces.push(string_of(&cur));
    proof {
        assert(v@.take(v.len() as int) =~= v@);
    }
    let ghost sp = crate::model::strs(pieces@);
    let mut out: Vec<String> = Vec::new();
    let mut k: usize = 0;
    while k < pieces.len()
        invariant
            k <= pieces.len(),
            sp == crate::model::strs(pieces@),
            crate::model::strs(out@) == sp.take(k as int).map_values(|p: Seq<char>| trim(p)),
        decreases pieces.len() - k,
    {
        proof {
            assert(sp[k as int] == pieces@[k as int]@);
        }
        let ghost before = crate::model::strs(out@);
        let t = crate::text::trimmed(pieces[k].as_str());
        out.push(t);
        proof {
            assert(crate::model::strs(out@) =~= before.push(trim(sp[k as int])));
            assert(sp.take(k + 1).map_values(|p: Seq<char>| trim(p)) =~= sp.take(k as int).map_values(|p: Seq<char>| trim(p)).push(trim(sp[k as int])));
        }
        k = k + 1;
    }
    proof {
        assert(sp.take(k as int) =~= sp);
    }
    out
}

fn set_relation_decl(d: &RelationDecl, field: &str, value: &str, yaml: &Option<String>) -> (r: Result<RelationDecl, String>)
    ensures
        match r {
            Ok(x) => set_relation_field(d@, field@, value@, opt_text(*yaml)) == Ok::<_, Seq<char>>(x@),
            Err(m) => set_relation_field(d@, field@, value@, opt_text(*yaml)) == Err::<RelationDeclV, _>(m@),
        },
{
    let mut x = d.duplicate();
    if crate::text::str_eq(field, "description") {
        x.description = Some(owned(value));
    } else if crate::text::str_eq(field, "propagation") {
        let bad = owned("propagation is to-source|to-target|both|none");
        match yaml {
            None => {
                return Err(bad);
            },
            Some(y) => {
                let y = y.as_str();
                if crate::text::str_eq(y, "to-source") {
                    x.propagation = Propagation::ToSource;
                } else if crate::text::str_eq(y, "to-target") {
                    x.propagation = Propagation::ToTarget;
                } else if crate::text::str_eq(y, "both") {
                    x.propagation = Propagation::Both;
                } else if crate::text::str_eq(y, "none") {
                    x.propagation = Propagation::Neither;
                } else {
                    return Err(bad);
                }
            },
        }
    } else if crate::text::str_eq(field, "symmetric") || crate::text::str_eq(field, "acyclic") {
        let b = if crate::text::str_eq(value, "true") {
            true
        } else if crate::text::str_eq(value, "false") {
            false
        } else {
            return Err(owned("true|false"));
        };
        if crate::text::str_eq(field, "symmetric") {
            x.symmetric = b;
        } else {
            x.acyclic = b;
        }
    } else if crate::text::str_eq(field, "from") {
        x.from = Some(split_comma_list(value));
    } else if crate::text::str_eq(field, "to") {
        x.to = Some(split_comma_list(value));
    } else {
        let mut m = concat("relations have no settable field `", field);
        m.append("`");
        return Err(m);
    }
    Ok(x)
}

/// Plan `set (kinds|relations).<name>.<field> value`, given what the YAML
/// reader makes of `value` (it matters for `propagation` only).
pub fn set_given(vault: &Vault, path: &str, value: &str, yaml: Option<String>) -> (r: Result<SchemaPlan, String>)
    ensures
        plan_result(r) == set_spec(vault.schema@, path@, value@, opt_text(yaml)),
{
    let ghost sv = vault.schema@;
    let (section, name, field) = match split_path(path) {
        None => {
            return Err(owned("path is (kinds|relations).<name>.<field>"));
        },
        Some(t) => t,
    };
    let mut message = concat("set ", path);
    message.append(" = ");
    message.append(value);
    let d = vault.schema.duplicate();
    if crate::text::str_eq(section.as_str(), "kinds") {
        assert(key_list(sv.kinds) =~= keys_of(d.kinds@));
        let i = match crate::model::find_key(&d.kinds, name.as_str()) {
            None => {
                let mut m = concat("no kind `", name.as_str());
                m.append("`");
                return Err(m);
            },
            Some(i) => i,
        };
        if !crate::text::str_eq(field.as_str(), "description") {
            let mut m = concat("kinds have no settable field `", field.as_str());
            m.append("` (only description)");
            return Err(m);
        }
        let mut kinds = d.kinds;
        kinds.set(i, (name, KindDecl { description: Some(owned(value)) }));
        let s = Schema {
            api_version: d.api_version,
            name: d.name,
            title: d.title,
            root: d.root,
            charter: d.charter,
            ignore: d.ignore,
            exclusions: d.exclusions,
            kinds,
            relations: d.relations,
        };
        proof {
            assert(s@.kinds =~= sv.kinds.update(i as int, (name@, Some(value@))));
        }
        Ok(schema_only_plan(s, message))
    } else if crate::text::str_eq(section.as_str(), "relations") {
        assert(key_list(sv.relations) =~= keys_of(d.relations@));
        let i = match crate::model::find_key(&d.relations, name.as_str()) {
            None => {
                let mut m = concat("no relation `", name.as_str());
                m.append("`");
                return Err(m);
            },
            Some(i) => i,
        };
        let nd = set_relation_decl(&d.relations[i].1, field.as_str(), value, &yaml)?;
        let mut relations = d.relations;
        relations.set(i, (name, nd));
        let s = Schema {
            api_version: d.api_version,
            name: d.name,
            title: d.title,
            root: d.root,
            charter: d.charter,
            ignore: d.ignore,
            exclusions: d.exclusions,
            kinds: d.kinds,
            relations,
        };
        proof {
            assert(s@.relations =~= sv.relations.update(i as int, (name@, nd@)));
        }
        Ok(schema_only_plan(s, message))
    } else {
        let mut m = concat("unknown section `", section.as_str());
        m.append("` — kinds or relations");
        Err(m)
    }
}

/// Plan `set (kinds|relations).<name>.<field> value`.
pub fn set(vault: &Vault, path: &str, value: &str) -> (r: Result<SchemaPlan, String>)
    ensures
        plan_result(r) == set_spec(vault.schema@, path@, value@, yaml_string_of(value@)),
{
    let y = yaml_string(value);
    set_given(vault, path, value, y)
}

// ───────────────────────────── rename-relation ─────────────────────────────

/// The writes of rewritten entities, in order.
pub open spec fn writes_of(ms: Seq<EntityV>) -> Seq<ChangeV> {
    ms.map_values(|e: EntityV| ChangeV::Write { rel: e.file, fm: e.fm, body: e.body })
}

/// The first `k` entities that state relation type `old`, with those
/// entries moved under `new`.
pub open spec fn relation_moves_upto(es: Seq<Entity>, old: Seq<char>, new: Seq<char>, k: nat) -> Seq<EntityV>
    decreases k,
{
    if k == 0 {
        seq![]
    } else {
        let e = es[k - 1]@;
        relation_moves_upto(es, old, new, (k - 1) as nat) + match crate::ops::fm_entries(e.fm, old) {
            Some(entries) => seq![
                EntityV {
                    fm: crate::model::FrontMatterV {
                        relations: keyed_set(keyed_remove(e.fm.relations, old), new, entries),
                        ..e.fm
                    },
                    ..e
                },
            ],
            None => seq![],
        }
    }
}

pub open spec fn rename_relation_spec(s: SchemaV, es: Seq<Entity>, old: Seq<char>, new: Seq<char>) -> Result<SchemaPlanV, Seq<char>> {
    match key_index(key_list(s.relations), old) {
        None => Err("no relation `"@ + old + "`"@),
        Some(i) => if key_index(key_list(s.relations), new) is Some {
            Err("relation `"@ + new + "` already exists — merging types is a judgment call, do it by hand"@)
        } else {
            let ms = relation_moves_upto(es, old, new, es.len());
            Ok(SchemaPlanV {
                schema: SchemaV { relations: keyed_set(keyed_remove(s.relations, old), new, s.relations[i].1), ..s },
                changes: writes_of(ms),
                mutated: ms,
                deleted: seq![],
                message: "renamed relation `"@ + old + "` → `"@ + new + "`; rewrote "@ + crate::diag::decimal(ms.len())
                    + " entity files"@,
            })
        },
    }
}

fn write_of(e: &Entity) -> (c: Change)
    ensures
        c@ == (ChangeV::Write { rel: e@.file, fm: e@.fm, body: e@.body }),
{
    Change::Write { rel: e.file.clone(), fm: e.fm.duplicate(), body: e.body.clone() }
}

/// Plan renaming relation type `old` to `new`, in the schema and in every
/// frontmatter that states it.
pub fn rename_relation(vault: &Vault, old: &str, new: &str) -> (r: Result<SchemaPlan, String>)
    ensures
        plan_result(r) == rename_relation_spec(vault.schema@, vault.entities@, old@, new@),
{
    let ghost sv = vault.schema@;
    let d = vault.schema.duplicate();
    assert(key_list(sv.relations) =~= keys_of(d.relations@));
    let i = match crate::model::find_key(&d.relations, old) {
        None => {
            let mut m = concat("no relation `", old);
            m.append("`");
            return Err(m);
        },
        Some(i) => i,
    };
    if crate::model::find_key(&d.relations, new).is_some() {
        let mut m = concat("relation `", new);
        m.append("` already exists — merging types is a judgment call, do it by hand");
        return Err(m);
    }
    let decl = d.relations[i].1.duplicate();
    let relations = put_decl(drop_decl(d.relations, old), owned(new), decl);
    let schema = Schema {
        api_version: d.api_version,
        name: d.name,
        title: d.title,
        root: d.root,
        charter: d.charter,
        ignore: d.ignore,
        exclusions: d.exclusions,
        kinds: d.kinds,
        relations,
    };
    let es = &vault.entities;
    let mut changes: Vec<Change> = Vec::new();
    let mut mutated: Vec<Entity> = Vec::new();
    let mut k: usize = 0;
    while k < es.len()
        invariant
            k <= es.len(),
            mutated@.len() <= k,
            entities_view(mutated@) == relation_moves_upto(es@, old@, new@, k as nat),
            changes_view(changes@) == writes_of(entities_view(mutated@)),
        decreases es.len() - k,
    {
        let e = &es[k];
        let ghost ev = e@;
        let ghost before = entities_view(mutated@);
        proof {
            assert(ev.fm.relations.map_values(|p: (Seq<char>, Seq<crate::model::RelEntryV>)| p.0) =~= keys_of(e.fm.relations@));
        }
        match crate::model::find_key(&e.fm.relations, old) {
            Some(j) => {
                proof {
                    assert(ev.fm.relations[j as int] == (e.fm.relations@[j as int].0@, crate::model::entries_view(e.fm.relations@[j as int].1@)));
                }
                let entries = crate::model::duplicate_entries(&e.fm.relations[j].1);
                let mut fm = e.fm.duplicate();
                let rels = fm.relations;
                fm.relations = crate::ops::set_group(crate::ops::remove_group(rels, old), owned(new), entries);
                let m = Entity { eref: e.eref.clone(), file: e.file.clone(), fm, body: e.body.clone(), raw: e.raw.clone() };
                let c = write_of(&m);
                let ghost mv = m@;
                let ghost oc = changes_view(changes@);
                mutated.push(m);
                changes.push(c);
                proof {
                    assert(entities_view(mutated@) =~= before.push(mv));
                    assert(changes_view(changes@) =~= oc.push(c@));
                    assert(writes_of(before.push(mv)) =~= writes_of(before).push(c@));
                }
            },
            None => {},
        }
        proof {
            assert(entities_view(mutated@) =~= relation_moves_upto(es@, old@, new@, (k + 1) as nat));
        }
        k = k + 1;
    }
    let mut message = concat("renamed relation `", old);
    message.append("` → `");
    message.append(new);
    message.append("`; rewrote ");
    message.append(crate::diag::decimal_string(mutated.len()).as_str());
    message.append(" entity files");
    let p = SchemaPlan { schema, changes, mutated, deleted: Vec::new(), message };
    proof {
        assert(crate::model::strs(p.deleted@) =~= seq![]);
        assert(p.schema@.relations == keyed_set(keyed_remove(sv.relations, old@), new@, sv.relations[i as int].1));
        assert(p.schema@ == SchemaV { relations: keyed_set(keyed_remove(sv.relations, old@), new@, sv.relations[i as int].1), ..sv });
    }
    Ok(p)
}

// ───────────────────────────── rename-kind ─────────────────────────────

/// The entry names an entity of kind `old`.
pub open spec fn names_kind(e: crate::model::RelEntryV, old: Seq<char>) -> bool {
    crate::model::parse_ref(e.target_text()) is Ok && crate::model::parse_ref(e.target_text())->Ok_0.0 == old
}

/// The entry, pointed at kind `new` when it names kind `old`.
pub open spec fn kind_rewrite_one(e: crate::model::RelEntryV, old: Seq<char>, new: Seq<char>) -> crate::model::RelEntryV {
    if names_kind(e, old) {
        let t = crate::model::parse_ref(e.target_text())->Ok_0;
        crate::ops::retargeted(e, crate::ops::elided((new, t.1, t.2)))
    } else {
        e
    }
}

pub open spec fn kind_rewrite_relations(rels: Seq<(Seq<char>, Seq<crate::model::RelEntryV>)>, old: Seq<char>, new: Seq<char>) -> Seq<(Seq<char>, Seq<crate::model::RelEntryV>)> {
    rels.map_values(|p: (Seq<char>, Seq<crate::model::RelEntryV>)| (p.0, p.1.map_values(|e: crate::model::RelEntryV| kind_rewrite_one(e, old, new))))
}

pub open spec fn kind_touches(rels: Seq<(Seq<char>, Seq<crate::model::RelEntryV>)>, old: Seq<char>) -> bool {
    exists|i: int, j: int| 0 <= i < rels.len() && 0 <= j < rels[i].1.len() && #[trigger] names_kind(rels[i].1[j], old)
}

/// An entity after the kind rename: its refs to kind `old` point at `new`,
/// and an entity of kind `old` takes kind `new` and the path that goes with it.
pub open spec fn kind_moved_entity(e: EntityV, old: Seq<char>, new: Seq<char>) -> EntityV {
    let moves = e.eref.0 == old;
    let eref = if moves { (new, e.eref.1, e.eref.2) } else { e.eref };
    EntityV {
        eref,
        file: if moves { crate::ops::entity_path_text(eref) } else { e.file },
        fm: crate::model::FrontMatterV { relations: kind_rewrite_relations(e.fm.relations, old, new), ..e.fm },
        body: e.body,
        raw: e.raw,
    }
}

pub open spec fn kind_moves_upto(es: Seq<Entity>, old: Seq<char>, new: Seq<char>, k: nat) -> Seq<EntityV>
    decreases k,
{
    if k == 0 {
        seq![]
    } else {
        let e = es[k - 1]@;
        kind_moves_upto(es, old, new, (k - 1) as nat) + if kind_touches(e.fm.relations, old) || e.eref.0 == old {
            seq![kind_moved_entity(e, old, new)]
        } else {
            seq![]
        }
    }
}

/// `k` added to a sorted list of distinct texts.
pub open spec fn sorted_insert(s: Seq<Seq<char>>, k: Seq<char>) -> Seq<Seq<char>> {
    if s.contains(k) {
        s
    } else {
        s.insert(key_slot(s, k), k)
    }
}

/// The files of the first `k` entities of kind `old`, sorted.
pub open spec fn kind_deleted_upto(es: Seq<Entity>, old: Seq<char>, k: nat) -> Seq<Seq<char>>
    decreases k,
{
    if k == 0 {
        seq![]
    } else {
        let before = kind_deleted_upto(es, old, (k - 1) as nat);
        if es[k - 1]@.eref.0 == old {
            sorted_insert(before, es[k - 1]@.file)
        } else {
            before
        }
    }
}

/// A kind list with `old` replaced by `new`.
pub open spec fn swap_kind(l: Option<Seq<Seq<char>>>, old: Seq<char>, new: Seq<char>) -> Option<Seq<Seq<char>>> {
    match l {
        Some(v) => Some(v.map_values(|k: Seq<char>| if k == old { new } else { k })),
        None => None,
    }
}

pub open spec fn swap_endpoints(d: RelationDeclV, old: Seq<char>, new: Seq<char>) -> RelationDeclV {
    RelationDeclV { from: swap_kind(d.from, old, new), to: swap_kind(d.to, old, new), ..d }
}

pub open spec fn rename_kind_spec(s: SchemaV, es: Seq<Entity>, old: Seq<char>, new: Seq<char>) -> Result<SchemaPlanV, Seq<char>> {
    match key_index(key_list(s.kinds), old) {
        None => Err("no kind `"@ + old + "`"@),
        Some(i) => if key_index(key_list(s.kinds), new) is Some {
            Err("kind `"@ + new + "` already exists — merging kinds is a judgment call, do it by hand"@)
        } else {
            let ms = kind_moves_upto(es, old, new, es.len());
            let del = kind_deleted_upto(es, old, es.len());
            Ok(SchemaPlanV {
                schema: SchemaV {
                    kinds: keyed_set(keyed_remove(s.kinds, old), new, s.kinds[i].1),
                    relations: s.relations.map_values(|p: (Seq<char>, RelationDeclV)| (p.0, swap_endpoints(p.1, old, new))),
                    ..s
                },
                changes: writes_of(ms) + del.map_values(|f: Seq<char>| ChangeV::Delete { rel: f }),
                mutated: ms,
                deleted: del,
                message: "renamed kind `"@ + old + "` → `"@ + new + "`; moved/rewrote "@ + crate::diag::decimal(ms.len())
                    + " entity files"@,
            })
        },
    }
}

fn swap_list(l: &Option<Vec<String>>, old: &str, new: &str) -> (r: Option<Vec<String>>)
    ensures
        opt_strs(r) == swap_kind(opt_strs(*l), old@, new@),
{
    match l {
        None => None,
        Some(v) => {
            let mut out: Vec<String> = Vec::new();
            let mut i: usize = 0;
            while i < v.len()
                invariant
                    i <= v.len(),
                    out@.len() == i,
                    forall|j: int| 0 <= j < i ==> (#[trigger] out@[j])@ == (if v@[j]@ == old@ { new@ } else { v@[j]@ }),
                decreases v.len() - i,
            {
                if crate::text::str_eq(v[i].as_str(), old) {
                    out.push(owned(new));
                } else {
                    out.push(v[i].clone());
                }
                i = i + 1;
            }
            proof {
                assert(crate::model::strs(out@) =~= crate::model::strs(v@).map_values(|k: Seq<char>| if k == old@ { new@ } else { k }));
            }
            Some(out)
        },
    }
}

fn swap_decls(m: &Vec<(String, RelationDecl)>, old: &str, new: &str) -> (r: Vec<(String, RelationDecl)>)
    ensures
        decls_view(r@) == decls_view(m@).map_values(|p: (Seq<char>, RelationDeclV)| (p.0, swap_endpoints(p.1, old@, new@))),
{
    let mut out: Vec<(String, RelationDecl)> = Vec::new();
    let mut i: usize = 0;
    while i < m.len()
        invariant
            i <= m.len(),
            out@.len() == i,
            forall|j: int| 0 <= j < i ==> (#[trigger] out@[j]).0@ == m@[j].0@ && out@[j].1@ == swap_endpoints(m@[j].1@, old@, new@),
        decreases m.len() - i,
    {
        let d = &m[i].1;
        let nd = RelationDecl {
            description: d.description.clone(),
            propagation: d.propagation,
            symmetric: d.symmetric,
            from: swap_list(&d.from, old, new),
            to: swap_list(&d.to, old, new),
            acyclic: d.acyclic,
        };
        out.push((m[i].0.clone(), nd));
        i = i + 1;
    }
    proof {
        assert(decls_view(out@) =~= decls_view(m@).map_values(|p: (Seq<char>, RelationDeclV)| (p.0, swap_endpoints(p.1, old@, new@))));
    }
    out
}

fn kind_retarget_entries(entries: &Vec<RelEntry>, old: &str, new: &str) -> (r: (Vec<RelEntry>, bool))
    ensures
        crate::model::entries_view(r.0@) == crate::model::entries_view(entries@).map_values(
            |e: crate::model::RelEntryV| kind_rewrite_one(e, old@, new@),
        ),
        r.1 == exists|j: int| 0 <= j < entries@.len() && #[trigger] names_kind(crate::model::entries_view(entries@)[j], old@),
{
    let ghost ev = crate::model::entries_view(entries@);
    let mut out: Vec<RelEntry> = Vec::new();
    let mut touched = false;
    let mut j: usize = 0;
    while j < entries.len()
        invariant
            j <= entries.len(),
            ev == crate::model::entries_view(entries@),
            out@.len() == j,
            forall|q: int| 0 <= q < j ==> (#[trigger] out@[q])@ == kind_rewrite_one(ev[q], old@, new@),
            touched == exists|q: int| 0 <= q < j && #[trigger] names_kind(ev[q], old@),
        decreases entries.len() - j,
    {
        proof {
            assert(ev[j as int] == entries@[j as int]@);
        }
        let moved = match EntityRef::parse(entries[j].target()) {
            Ok(t) => if crate::text::str_eq(t.kind.as_str(), old) {
                let nt = EntityRef { kind: owned(new), ns: t.ns, name: t.name };
                Some(crate::ops::elide(&nt))
            } else {
                None
            },
            Err(_) => None,
        };
        proof {
            assert((moved is Some) == names_kind(ev[j as int], old@));
        }
        match moved {
            Some(s) => {
                let e = match &entries[j] {
                    RelEntry::Bare(_) => RelEntry::Bare(s),
                    RelEntry::Object { attrs, .. } => RelEntry::Object { reference: s, attrs: crate::model::duplicate_attrs(attrs) },
                };
                out.push(e);
                touched = true;
            },
            None => {
                out.push(entries[j].duplicate());
            },
        }
        j = j + 1;
    }
    proof {
        assert(crate::model::entries_view(out@) =~= ev.map_values(|e: crate::model::RelEntryV| kind_rewrite_one(e, old@, new@)));
    }
    (out, touched)
}

fn kind_retarget_relations(rels: &Vec<(String, Vec<RelEntry>)>, old: &str, new: &str) -> (r: (Vec<(String, Vec<RelEntry>)>, bool))
    ensures
        crate::model::relations_view(r.0@) == kind_rewrite_relations(crate::model::relations_view(rels@), old@, new@),
        r.1 == kind_touches(crate::model::relations_view(rels@), old@),
{
    let ghost rv = crate::model::relations_view(rels@);
    let mut out: Vec<(String, Vec<RelEntry>)> = Vec::new();
    let mut touched = false;
    let mut i: usize = 0;
    while i < rels.len()
        invariant
            i <= rels.len(),
            rv == crate::model::relations_view(rels@),
            out@.len() == i,
            forall|q: int| 0 <= q < i ==> (#[trigger] out@[q]).0@ == rv[q].0 && crate::model::entries_view(out@[q].1@)
                == rv[q].1.map_values(|e: crate::model::RelEntryV| kind_rewrite_one(e, old@, new@)),
            touched == exists|a: int, b: int| 0 <= a < i && 0 <= b < rv[a].1.len() && #[trigger] names_kind(rv[a].1[b], old@),
        decreases rels.len() - i,
    {
        proof {
            assert(rv[i as int] == (rels@[i as int].0@, crate::model::entries_view(rels@[i as int].1@)));
        }
        let (es, t) = kind_retarget_entries(&rels[i].1, old, new);
        proof {
            if t {
                let b = choose|b: int| 0 <= b < rels@[i as int].1@.len() && #[trigger] names_kind(crate::model::entries_view(rels@[i as int].1@)[b], old@);
                assert(names_kind(rv[i as int].1[b], old@));
            }
            if !t && !touched {
                assert forall|a: int, b: int| 0 <= a <= i && 0 <= b < rv[a].1.len() implies !#[trigger] names_kind(rv[a].1[b], old@) by {
                    if a == i {
                        assert(rv[a].1[b] == crate::model::entries_view(rels@[i as int].1@)[b]);
                    }
                }
            }
        }
        out.push((rels[i].0.clone(), es));
        touched = touched || t;
        i = i + 1;
    }
    proof {
        assert(crate::model::relations_view(out@) =~= kind_rewrite_relations(rv, old@, new@));
    }
    (out, touched)
}

fn slot_in_list(v: &Vec<String>, k: &str) -> (r: usize)
    ensures
        r as int == key_slot(crate::model::strs(v@), k@),
        r <= v@.len(),
{
    let ghost ks = crate::model::strs(v@);
    proof {
        lemma_key_slot_range(ks, k@);
    }
    let mut j: usize = 0;
    assert(ks.skip(0) =~= ks);
    while j < v.len()
        invariant
            j <= v.len(),
            ks == crate::model::strs(v@),
            key_slot(ks, k@) == j + key_slot(ks.skip(j as int), k@),
        decreases v.len() - j,
    {
        proof {
            assert(ks[j as int] == v@[j as int]@);
            assert(ks.skip(j as int).drop_first() =~= ks.skip(j + 1));
        }
        match crate::text::compare_str(k, v[j].as_str()) {
            crate::text::Order::Less => {
                return j;
            },
            _ => {
                proof {
                    crate::text::lemma_text_lt_total(k@, ks[j as int]);
                }
            },
        }
        j = j + 1;
    }
    proof {
        assert(ks.skip(j as int) =~= Seq::<Seq<char>>::empty());
    }
    j
}

pub(crate) fn insert_sorted(v: Vec<String>, k: String) -> (r: Vec<String>)
    ensures
        crate::model::strs(r@) == sorted_insert(crate::model::strs(v@), k@),
{
    if crate::model::list_contains(&v, k.as_str()) {
        return v;
    }
    let ghost sv = crate::model::strs(v@);
    let ghost kv = k@;
    let pos = slot_in_list(&v, k.as_str());
    let mut v = v;
    v.insert(pos, k);
    assert(crate::model::strs(v@) =~= sv.insert(pos as int, kv));
    v
}

/// Plan renaming kind `old` to `new`: in the schema (its declaration and
/// every relation type's endpoint lists), in every ref to an entity of that
/// kind, and in the paths of those entities.
#[verifier::rlimit(30)]
pub fn rename_kind(vault: &Vault, old: &str, new: &str) -> (r: Result<SchemaPlan, String>)
    ensures
        plan_result(r) == rename_kind_spec(vault.schema@, vault.entities@, old@, new@),
{
    let ghost sv = vault.schema@;
    let d = vault.schema.duplicate();
    assert(key_list(sv.kinds) =~= keys_of(d.kinds@));
    let i = match crate::model::find_key(&d.kinds, old) {
        None => {
            let mut m = concat("no kind `", old);
            m.append("`");
            return Err(m);
        },
        Some(i) => i,
    };
    if crate::model::find_key(&d.kinds, new).is_some() {
        let mut m = concat("kind `", new);
        m.append("` already exists — merging kinds is a judgment call, do it by hand");
        return Err(m);
    }
    let decl = d.kinds[i].1.clone();
    let kinds = put_kind(drop_kind(d.kinds, old), owned(new), decl);
    let relations = swap_decls(&d.relations, old, new);
    let schema = Schema {
        api_version: d.api_version,
        name: d.name,
        title: d.title,
        root: d.root,
        charter: d.charter,
        ignore: d.ignore,
        exclusions: d.exclusions,
        kinds,
        relations,
    };
    let es = &vault.entities;
    let mut mutated: Vec<Entity> = Vec::new();
    let mut deleted: Vec<String> = Vec::new();
    let mut k: usize = 0;
    while k < es.len()
        invariant
            k <= es.len(),
            mutated@.len() <= k,
            entities_view(mutated@) == kind_moves_upto(es@, old@, new@, k as nat),
            crate::model::strs(deleted@) == kind_deleted_upto(es@, old@, k as nat),
        decreases es.len() - k,
    {
        let e = &es[k];
        let ghost before = entities_view(mutated@);
        let (rels, touched) = kind_retarget_relations(&e.fm.relations, old, new);
        let moves = crate::text::str_eq(e.eref.kind.as_str(), old);
        if touched || moves {
            let eref = if moves {
                EntityRef { kind: owned(new), ns: e.eref.ns.clone(), name: e.eref.name.clone() }
            } else {
                e.eref.clone()
            };
            let file = if moves {
                crate::ops::entity_path(&eref)
            } else {
                e.file.clone()
            };
            let mut fm = e.fm.duplicate();
            fm.relations = rels;
            let m = Entity { eref, file, fm, body: e.body.clone(), raw: e.raw.clone() };
            proof {
                assert(m@ == kind_moved_entity(e@, old@, new@));
            }
            mutated.push(m);
            proof {
                assert(entities_view(mutated@) =~= before.push(kind_moved_entity(e@, old@, new@)));
            }
        }
        if moves {
            deleted = insert_sorted(deleted, e.file.clone());
        }
        proof {
            assert(entities_view(mutated@) =~= kind_moves_upto(es@, old@, new@, (k + 1) as nat));
        }
        k = k + 1;
    }
    let mut changes: Vec<Change> = Vec::new();
    let mut j: usize = 0;
    while j < mutated.len()
        invariant
            j <= mutated.len(),
            changes_view(changes@) == writes_of(entities_view(mutated@).take(j as int)),
        decreases mutated.len() - j,
    {
        let c = write_of(&mutated[j]);
        let ghost oc = changes_view(changes@);
        changes.push(c);
        proof {
            assert(changes_view(changes@) =~= oc.push(c@));
            assert(entities_view(mutated@).take(j + 1) =~= entities_view(mutated@).take(j as int).push(mutated@[j as int]@));
            assert(writes_of(entities_view(mutated@).take(j + 1)) =~= writes_of(entities_view(mutated@).take(j as int)).push(c@));
        }
        j = j + 1;
    }
    let ghost writes = changes_view(changes@);
    proof {
        assert(entities_view(mutated@).take(j as int) =~= entities_view(mutated@));
    }
    let mut q: usize = 0;
    while q < deleted.len()
        invariant
            q <= deleted.len(),
            changes_view(changes@) == writes + crate::model::strs(deleted@).take(q as int).map_values(|f: Seq<char>| ChangeV::Delete { rel: f }),
        decreases deleted.len() - q,
    {
        let ghost oc = changes_view(changes@);
        changes.push(Change::Delete { rel: deleted[q].clone() });
        proof {
            assert(changes_view(changes@) =~= oc.push(ChangeV::Delete { rel: deleted@[q as int]@ }));
            assert(crate::model::strs(deleted@).take(q + 1) =~= crate::model::strs(deleted@).take(q as int).push(deleted@[q as int]@));
            assert(writes + crate::model::strs(deleted@).take(q + 1).map_values(|f: Seq<char>| ChangeV::Delete { rel: f }) =~= oc.push(ChangeV::Delete { rel: deleted@[q as int]@ }));
        }
        q = q + 1;
    }
    proof {
        assert(crate::model::strs(deleted@).take(q as int) =~= crate::model::strs(deleted@));
    }
    let mut message = concat("renamed kind `", old);
    message.append("` → `");
    message.append(new);
    message.append("`; moved/rewrote ");
    message.append(crate::diag::decimal_string(mutated.len()).as_str());
    message.append(" entity files");
    let p = SchemaPlan { schema, changes, mutated, deleted, message };
    proof {
        assert(p.schema@.kinds == keyed_set(keyed_remove(sv.kinds, old@), new@, sv.kinds[i as int].1));
        assert(p.schema@ == SchemaV {
            kinds: keyed_set(keyed_remove(sv.kinds, old@), new@, sv.kinds[i as int].1),
            relations: sv.relations.map_values(|p: (Seq<char>, RelationDeclV)| (p.0, swap_endpoints(p.1, old@, new@))),
            ..sv
        });
    }
    Ok(p)
}
// ───────────────────────────── the schema's maps ─────────────────────────────

/// Keys in strictly increasing order: sorted, none twice, as a map keeps
/// its keys.
pub open spec fn keys_ordered(keys: Seq<Seq<char>>) -> bool {
    forall|i: int, j: int| 0 <= i < j < keys.len() ==> crate::text::text_lt(#[trigger] keys[i], #[trigger] keys[j])
}

/// The schema's kinds and relation types are maps: each keyed by its name,
/// names unique and in order.
pub open spec fn schema_ordered(s: SchemaV) -> bool {
    keys_ordered(key_list(s.kinds)) && keys_ordered(key_list(s.relations))
}

/// Where an absent key goes in ordered keys: after every smaller key,
/// before every larger one.
proof fn lemma_key_slot_split(keys: Seq<Seq<char>>, k: Seq<char>)
    requires
        keys_ordered(keys),
        key_index(keys, k) is None,
    ensures
        forall|j: int| 0 <= j < key_slot(keys, k) ==> crate::text::text_lt(#[trigger] keys[j], k),
        forall|j: int| key_slot(keys, k) <= j < keys.len() ==> crate::text::text_lt(k, #[trigger] keys[j]),
    decreases keys.len(),
{
    lemma_key_slot_range(keys, k);
    if keys.len() > 0 {
        crate::model::lemma_key_index(keys, k);
        let rest = keys.drop_first();
        if crate::text::text_lt(k, keys[0]) {
            assert forall|j: int| 0 <= j < keys.len() implies crate::text::text_lt(k, #[trigger] keys[j]) by {
                if j > 0 {
                    crate::text::lemma_text_lt_trans(k, keys[0], keys[j]);
                }
            }
        } else {
            crate::text::lemma_text_lt_total(k, keys[0]);
            assert(keys_ordered(rest)) by {
                assert forall|i: int, j: int| 0 <= i < j < rest.len() implies crate::text::text_lt(#[trigger] rest[i], #[trigger] rest[j]) by {
                    assert(rest[i] == keys[i + 1] && rest[j] == keys[j + 1]);
                }
            }
            crate::model::lemma_key_index(rest, k);
            assert(key_index(rest, k) is None) by {
                if key_index(rest, k) is Some {
                    let q = key_index(rest, k)->0;
                    assert(keys[q + 1] == k);
                }
            }
            lemma_key_slot_split(rest, k);
            assert forall|j: int| 0 <= j < key_slot(keys, k) implies crate::text::text_lt(#[trigger] keys[j], k) by {
                if j > 0 {
                    assert(keys[j] == rest[j - 1]);
                }
            }
            assert forall|j: int| key_slot(keys, k) <= j < keys.len() implies crate::text::text_lt(k, #[trigger] keys[j]) by {
                assert(keys[j] == rest[j - 1]);
            }
        }
    }
}

/// Setting a key keeps the keys ordered.
pub proof fn lemma_keyed_set_ordered<V>(m: Seq<(Seq<char>, V)>, k: Seq<char>, v: V)
    requires
        keys_ordered(key_list(m)),
    ensures
        keys_ordered(key_list(keyed_set(m, k, v))),
{
    let keys = key_list(m);
    crate::model::lemma_key_index(keys, k);
    match key_index(keys, k) {
        Some(i) => {
            assert(key_list(m.update(i, (k, v))) =~= keys);
        },
        None => {
            lemma_key_slot_split(keys, k);
            lemma_key_slot_range(keys, k);
            let p = key_slot(keys, k);
            let k2 = key_list(m.insert(p, (k, v)));
            assert(k2 =~= keys.insert(p, k));
            assert forall|i: int, j: int| 0 <= i < j < k2.len() implies crate::text::text_lt(#[trigger] k2[i], #[trigger] k2[j]) by {
                if j < p {
                    assert(k2[i] == keys[i] && k2[j] == keys[j]);
                } else if j == p {
                    assert(k2[i] == keys[i]);
                } else if i < p {
                    assert(k2[i] == keys[i] && k2[j] == keys[j - 1]);
                    crate::text::lemma_text_lt_trans(keys[i], k, keys[j - 1]);
                } else if i == p {
                    assert(k2[j] == keys[j - 1]);
                } else {
                    assert(k2[i] == keys[i - 1] && k2[j] == keys[j - 1]);
                }
            }
        },
    }
}

/// Removing a key keeps the keys ordered.
pub proof fn lemma_keyed_remove_ordered<V>(m: Seq<(Seq<char>, V)>, k: Seq<char>)
    requires
        keys_ordered(key_list(m)),
    ensures
        keys_ordered(key_list(keyed_remove(m, k))),
{
    let keys = key_list(m);
    crate::model::lemma_key_index(keys, k);
    match key_index(keys, k) {
        Some(q) => {
            let k2 = key_list(m.remove(q));
            assert(k2 =~= keys.remove(q));
            assert forall|i: int, j: int| 0 <= i < j < k2.len() implies crate::text::text_lt(#[trigger] k2[i], #[trigger] k2[j]) by {
                let a = if i < q { i } else { i + 1 };
                let b = if j < q { j } else { j + 1 };
                assert(k2[i] == keys[a] && k2[j] == keys[b]);
            }
        },
        None => {},
    }
}

/// Every schema operation keeps the kinds and relation types ordered maps.
pub proof fn lemma_schema_plans_stay_ordered(
    s: SchemaV,
    es: Seq<Entity>,
    name: Seq<char>,
    description: Option<Seq<char>>,
    spec: RelationSpec,
    path: Seq<char>,
    value: Seq<char>,
    yaml: Option<Seq<char>>,
    old: Seq<char>,
    new: Seq<char>,
)
    requires
        schema_ordered(s),
    ensures
        add_kind_spec(s, name, description) matches Ok(p) ==> schema_ordered(p.schema),
        add_relation_spec(s, name, spec) matches Ok(p) ==> schema_ordered(p.schema),
        set_spec(s, path, value, yaml) matches Ok(p) ==> schema_ordered(p.schema),
        rename_relation_spec(s, es, old, new) matches Ok(p) ==> schema_ordered(p.schema),
        rename_kind_spec(s, es, old, new) matches Ok(p) ==> schema_ordered(p.schema),
{
    lemma_keyed_set_ordered(s.kinds, name, description);
    lemma_keyed_set_ordered(s.relations, name, declared_relation(spec));
    lemma_keyed_remove_ordered(s.relations, old);
    lemma_keyed_remove_ordered(s.kinds, old);
    crate::model::lemma_key_index(key_list(s.relations), old);
    crate::model::lemma_key_index(key_list(s.kinds), old);
    match key_index(key_list(s.relations), old) {
        Some(i) => lemma_keyed_set_ordered(keyed_remove(s.relations, old), new, s.relations[i].1),
        None => {},
    }
    match key_index(key_list(s.kinds), old) {
        Some(i) => {
            lemma_keyed_set_ordered(keyed_remove(s.kinds, old), new, s.kinds[i].1);
            let moved = s.relations.map_values(|p: (Seq<char>, RelationDeclV)| (p.0, swap_endpoints(p.1, old, new)));
            assert(key_list(moved) =~= key_list(s.relations));
        },
        None => {},
    }
    match path_fields(path) {
        Some(f) => {
            let (section, nm, field) = f;
            crate::model::lemma_key_index(key_list(s.kinds), nm);
            crate::model::lemma_key_index(key_list(s.relations), nm);
            match key_index(key_list(s.kinds), nm) {
                Some(i) => {
                    assert(key_list(s.kinds.update(i, (nm, Some(value)))) =~= key_list(s.kinds));
                },
                None => {},
            }
            match key_index(key_list(s.relations), nm) {
                Some(i) => match set_relation_field(s.relations[i].1, field, value, yaml) {
                    Ok(d) => {
                        assert(key_list(s.relations.update(i, (nm, d))) =~= key_list(s.relations));
                    },
                    Err(_) => {},
                },
                None => {},
            }
        },
        None => {},
    }
}

// ───────────────────────────── init ─────────────────────────────

/// The start of a new constitution, up to the project's name.
pub const STARTER_HEAD: &'static str = "apiVersion: laplace/v1\nname: ";

/// The rest of a new constitution: commented defaults, one charter
/// question, one kind and one relation type to edit.
pub const STARTER_TAIL: &'static str = r#"
# root: ..            # what source/ignore globs resolve against (default: the directory containing this vault)

# The charter: the questions this map exists to answer. Derive the vocabulary
# below from these questions — not from ontological completeness.
charter:
  - 改动 X，哪些东西必须跟着重看？

# ignore: []          # declared non-territory: paths no entity will ever claim
# exclusions: []      # concept-shaped non-goals, with reasons

# Kinds: the nouns. A description's first sentence is its label; the rest is
# the authoring guide surfaced at `laplace add` time.
kinds:
  thing: { description: 一类东西。描述应写清它为什么存在、负责什么。 }

# Relations: the verbs. Every relation MUST state its reading direction.
# propagation — the two-question test for `A rel B`:
#   B changed, must A be revisited?  yes → to-source
#   A changed, must B be revisited?  yes → to-target   (both/none accordingly)
relations:
  depends-on:
    description: A depends-on B —— A 是消费方，B 是被依赖方。改 B 要回头看 A。
    propagation: to-source
"#;

/// The project's name: the one given, else the directory's, else `project`.
pub open spec fn project_name(given: Option<Seq<char>>, dir: Option<Seq<char>>) -> Seq<char> {
    match given {
        Some(n) => n,
        None => match dir {
            Some(d) => d,
            None => "project"@,
        },
    }
}

pub open spec fn starter_schema(project: Seq<char>) -> Seq<char> {
    STARTER_HEAD@ + project + STARTER_TAIL@
}

/// The `schema.yaml` that `init` scaffolds, for the project named `given`,
/// or else after its directory `dir`.
pub fn starter_schema_text(given: Option<&str>, dir: Option<&str>) -> (r: String)
    ensures
        r@ == starter_schema(project_name(crate::query::opt_str(given), crate::query::opt_str(dir))),
{
    let mut out = owned(STARTER_HEAD);
    match given {
        Some(n) => out.append(n),
        None => match dir {
            Some(d) => out.append(d),
            None => out.append("project"),
        },
    }
    out.append(STARTER_TAIL);
    out
}

} // verus!
