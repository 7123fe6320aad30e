use laplace::commit::{simulate, Edit};
use laplace::diag::Diagnostic;
use laplace::model::{Entity, EntityRef, FrontMatter, KindDecl, Propagation, RelEntry, RelationDecl, Schema};
use laplace::ops::{add, elide, entity_path, link, remove, rename, summary_of, unlink, update, AddSpec, Change, UpdateSpec};
use laplace::vault::{FmParse, Vault};

fn decl(desc: &str, prop: Propagation, symmetric: bool, acyclic: bool, from: Option<&[&str]>, to: Option<&[&str]>) -> RelationDecl {
    RelationDecl {
        description: Some(desc.to_string()),
        propagation: prop,
        symmetric,
        from: from.map(|v| v.iter().map(|s| s.to_string()).collect()),
        to: to.map(|v| v.iter().map(|s| s.to_string()).collect()),
        acyclic,
    }
}

fn schema() -> Schema {
    Schema {
        api_version: "laplace/v1".to_string(),
        name: "西游".to_string(),
        title: None,
        root: "..".to_string(),
        charter: vec!["谁和谁有关？".to_string()],
        ignore: Vec::new(),
        exclusions: Vec::new(),
        kinds: vec![
            ("artifact".to_string(), KindDecl { description: Some("法宝。".to_string()) }),
            ("character".to_string(), KindDecl { description: Some("人物。写清来历。".to_string()) }),
        ],
        relations: vec![
            ("师从".to_string(), decl("A 师从 B —— A 是弟子，B 是师父。", Propagation::ToSource, false, true, Some(&["character"]), Some(&["character"]))),
            ("持有".to_string(), decl("A 持有 B —— A 是主人，B 是法宝。", Propagation::ToSource, false, false, Some(&["character"]), Some(&["artifact"]))),
            ("结义".to_string(), decl("A 结义 B —— 兄弟。", Propagation::Both, true, false, Some(&["character"]), Some(&["character"]))),
        ],
    }
}

fn fm(rels: Vec<(&str, Vec<&str>)>) -> FrontMatter {
    let mut f = FrontMatter::default();
    f.relations = rels
        .into_iter()
        .map(|(k, ts)| (k.to_string(), ts.into_iter().map(|t| RelEntry::Bare(t.to_string())).collect()))
        .collect();
    f
}

fn entity(kind: &str, name: &str, rels: Vec<(&str, Vec<&str>)>, body: &str) -> Entity {
    Entity {
        eref: EntityRef::new(kind, "default", name),
        file: format!("{kind}/{name}.md"),
        fm: fm(rels),
        body: body.to_string(),
        raw: body.to_string(),
    }
}

fn vault() -> Vault {
    Vault {
        dir: "laplace".to_string(),
        project_root: ".".to_string(),
        schema: schema(),
        entities: vec![
            entity("character", "孙悟空", vec![("师从", vec!["character:菩提祖师"]), ("持有", vec!["artifact:如意金箍棒"])], "齐天大圣。拜菩提祖师为师。"),
            entity("character", "菩提祖师", vec![], "灵台方寸山的祖师。"),
            entity("artifact", "如意金箍棒", vec![], "定海神针。"),
            entity("character", "牛魔王", vec![("结义", vec!["character:孙悟空"])], "平天大圣。"),
        ],
        load_diags: Vec::new(),
    }
}

fn spec(kind: &str, name: &str, rels: Vec<(&str, Vec<&str>)>, body: &str) -> AddSpec {
    AddSpec {
        kind: kind.to_string(),
        name: name.to_string(),
        namespace: None,
        title: None,
        tags: Vec::new(),
        lifecycle: None,
        body: body.to_string(),
        relations: fm(rels).relations,
        source: Vec::new(),
    }
}

#[test]
fn elided_and_paths() {
    let r = EntityRef::parse("character:孙悟空").unwrap();
    assert_eq!(elide(&r), "character:孙悟空");
    assert_eq!(entity_path(&r), "character/孙悟空.md");
    let r = EntityRef::parse("character:龙宫/敖广").unwrap();
    assert_eq!(elide(&r), "character:龙宫/敖广");
    assert_eq!(entity_path(&r), "character/龙宫/敖广.md");
    let back = EntityRef::parse(&elide(&r)).unwrap();
    assert_eq!(back, r);
}

#[test]
fn add_creates_and_refuses() {
    let v = vault();
    let p = add(&v, spec("character", "红孩儿", vec![("师从", vec!["character:牛魔王"])], "牛魔王之子。")).unwrap();
    assert_eq!(p.eref.to_string(), "character:default/红孩儿");
    assert_eq!(p.path, "character/红孩儿.md");
    assert_eq!(p.edges, 1);
    assert_eq!(p.message, "added character:default/红孩儿 at laplace/character/红孩儿.md (1 edges)");
    let err = add(&v, spec("character", "妖精甲", vec![("师从", vec!["character:不存在"])], "x")).unwrap_err();
    assert!(err.contains("no such entity"), "{err}");
    let err = add(&v, spec("character", "孙悟空", vec![], "x")).unwrap_err();
    assert!(err.contains("already exists"), "{err}");
    let err = add(&v, spec("monster", "白骨精", vec![], "x")).unwrap_err();
    assert!(err.contains("monster"), "{err}");
    let p = add(&v, spec("character", "沙僧", vec![], "")).unwrap();
    assert!(p.message.ends_with("Guide for `character`: 人物。写清来历。"), "{}", p.message);
}

#[test]
fn link_echoes_and_unlink_removes() {
    let v = vault();
    let p = link(&v, "character:牛魔王", "持有", "artifact:如意金箍棒", None).unwrap();
    assert!(!p.noop);
    assert_eq!(p.message, "linked: character:牛魔王 --持有--> artifact:如意金箍棒\n  now 持有: [artifact:如意金箍棒]");
    let p = link(&v, "character:孙悟空", "结义", "character:牛魔王", None).unwrap();
    assert!(p.noop, "{}", p.message);
    assert!(p.message.contains("symmetric"));
    let p = link(&v, "character:孙悟空", "师从", "character:菩提祖师", None).unwrap();
    assert!(p.noop);
    let err = link(&v, "character:孙悟空", "持有", "character:牛魔王", None).unwrap_err();
    assert!(err.contains("character"), "{err}");
    let err = link(&v, "character:孙悟空", "师父", "character:牛魔王", None).unwrap_err();
    assert!(err.contains("师父"), "{err}");
    let u = unlink(&v, "character:孙悟空", "师从", "character:菩提祖师").unwrap();
    assert_eq!(u.message, "unlinked: character:孙悟空 --师从--> character:菩提祖师");
    match u.change {
        Change::Write { rel, fm, .. } => {
            assert_eq!(rel, "character/孙悟空.md");
            assert!(fm.relations.iter().all(|(k, _)| k != "师从"));
        }
        Change::Delete { .. } => panic!("unlink writes"),
    }
    let err = unlink(&v, "character:菩提祖师", "师从", "character:孙悟空").unwrap_err();
    assert_eq!(err, "no edge character:菩提祖师 --师从--> character:孙悟空 to remove");
}

#[test]
fn remove_refuses_inbound_then_allows() {
    let v = vault();
    let err = remove(&v, "character:菩提祖师").unwrap_err();
    assert_eq!(err, "refused: 1 inbound refs would dangle — unlink them first:\n  character:孙悟空 --师从--> it");
    let p = remove(&v, "character:牛魔王").unwrap();
    assert_eq!(p.message, "removed character:default/牛魔王");
    match p.change {
        Change::Delete { rel } => assert_eq!(rel, "character/牛魔王.md"),
        Change::Write { .. } => panic!("remove deletes"),
    }
    let err = remove(&v, "character:孙悟空x").unwrap_err();
    assert!(err.starts_with("no such entity: character:default/孙悟空x"), "{err}");
}

#[test]
fn rename_rewrites_inbound_and_reports_mentions() {
    let v = vault();
    let p = rename(&v, "character:菩提祖师", "须菩提", None).unwrap();
    assert_eq!(p.rewritten_files, 1);
    assert_eq!(p.prose_mentions, 1);
    assert_eq!(
        p.message,
        "renamed character:default/菩提祖师 → character:default/须菩提; rewrote inbound refs in 1 files\n  note: 1 prose mentions of `菩提祖师` in bodies were left untouched (prose is human domain) — review by hand"
    );
    assert_eq!(p.changes.len(), 3);
    match &p.changes[0] {
        Change::Delete { rel } => assert_eq!(rel, "character/菩提祖师.md"),
        _ => panic!("old file deleted first"),
    }
    match &p.changes[1] {
        Change::Write { rel, .. } => assert_eq!(rel, "character/须菩提.md"),
        _ => panic!("new file written"),
    }
    match &p.changes[2] {
        Change::Write { rel, fm, .. } => {
            assert_eq!(rel, "character/孙悟空.md");
            let (_, es) = fm.relations.iter().find(|(k, _)| k == "师从").unwrap();
            assert_eq!(es[0].target(), "character:须菩提");
        }
        _ => panic!("inbound file rewritten"),
    }
    assert_eq!(rename(&v, "character:孙悟空", "孙悟空", None).unwrap_err(), "rename to the same identity is a no-op");
    assert_eq!(rename(&v, "character:孙悟空", "牛魔王", None).unwrap_err(), "character:default/牛魔王 already exists");
    assert!(rename(&v, "character:孙悟空", "a b", None).is_err());
    let p = rename(&v, "character:牛魔王", "平天大圣", Some("火云洞")).unwrap();
    assert_eq!(p.to.to_string(), "character:火云洞/平天大圣");
    assert_eq!(p.rewritten_files, 0);
    assert_eq!(p.message, "renamed character:default/牛魔王 → character:火云洞/平天大圣; rewrote inbound refs in 0 files");
}

#[test]
fn update_sets_tags_and_fields() {
    let v = vault();
    let u = UpdateSpec {
        title: Some("美猴王".to_string()),
        clear_title: false,
        lifecycle: None,
        clear_lifecycle: false,
        add_tags: vec!["猴".to_string(), "猴".to_string()],
        remove_tags: Vec::new(),
        set: vec![("别名".to_string(), "孙行者".to_string())],
        unset: Vec::new(),
        body: None,
    };
    let p = update(&v, "character:孙悟空", u).unwrap();
    assert_eq!(p.message, "updated character:default/孙悟空");
    match p.change {
        Change::Write { fm, body, .. } => {
            assert_eq!(fm.title.as_deref(), Some("美猴王"));
            assert_eq!(fm.tags, vec!["猴".to_string()]);
            assert_eq!(fm.extra.len(), 1);
            assert_eq!(body, "齐天大圣。拜菩提祖师为师。");
        }
        _ => panic!("update writes"),
    }
    let bad = UpdateSpec {
        title: None,
        clear_title: false,
        lifecycle: None,
        clear_lifecycle: false,
        add_tags: Vec::new(),
        remove_tags: Vec::new(),
        set: vec![("tags".to_string(), "x".to_string())],
        unset: Vec::new(),
        body: None,
    };
    assert!(update(&v, "character:孙悟空", bad).is_err());
}

#[test]
fn summary_is_the_first_sentence() {
    let v = vault();
    assert_eq!(summary_of(&v.entities[0]), "齐天大圣。");
}

#[test]
fn simulate_refuses_new_errors_and_allows_repairs() {
    let v = vault();
    let files: Vec<String> = Vec::new();
    let del = vec![Edit::Delete { rel: "character/菩提祖师.md".to_string() }];
    let err = simulate(&v, &del, &files).unwrap_err();
    assert!(err.starts_with("refused — the operation would introduce errors:\n"), "{err}");
    assert!(err.contains("dangling"), "{err}");
    let fine = vec![Edit::Delete { rel: "character/牛魔王.md".to_string() }];
    assert_eq!(simulate(&v, &fine, &files), Ok(()));
    let mut broken = vault();
    broken.entities.remove(1);
    let repair = vec![Edit::Write {
        parts: vec!["character".to_string(), "菩提祖师.md".to_string()],
        raw: "祖师。".to_string(),
        fm: FmParse::Parsed(FrontMatter::default()),
    }];
    assert_eq!(simulate(&broken, &repair, &files), Ok(()));
    let mut worse = vault();
    worse.entities.remove(2);
    assert_eq!(simulate(&worse, &fine, &files), Ok(()));
    let unparsable = vec![Edit::Write {
        parts: vec!["character".to_string(), "x.md".to_string()],
        raw: "---\nbad: [\n---\n".to_string(),
        fm: FmParse::Failed { message: "did not parse".to_string(), line: Some(2) },
    }];
    let err = simulate(&v, &unparsable, &files).unwrap_err();
    assert!(err.starts_with("the write would not parse back: "), "{err}");
    let _ = Diagnostic::err("x", None, "y".to_string());
}

// ───────────────────────── queries, validation, summary ─────────────────────────

use laplace::graph::Graph;
use laplace::query::{architecture, get, impact, neighbors, search, trace};
use laplace::validate::{closest, did_you_mean, run};
use laplace::summary::{estimate_tokens, render};

#[test]
fn validation_of_a_clean_and_a_broken_vault() {
    let v = vault();
    let r = run(&v, &Vec::new());
    assert_eq!(r.errors(), 0, "{:?}", r.diags.iter().map(|d| d.render()).collect::<Vec<_>>());
    let mut b = vault();
    b.entities.remove(1);
    let r = run(&b, &Vec::new());
    assert_eq!(r.errors(), 1);
    let text = r.diags[0].render();
    assert!(text.contains("dangling-ref"), "{text}");
    assert_eq!(r.warnings() + r.errors(), r.diags.len());
}

#[test]
fn acyclic_relations_report_a_cycle() {
    let mut v = vault();
    v.entities[1] = entity("character", "菩提祖师", vec![("师从", vec!["character:孙悟空"])], "祖师。");
    let r = run(&v, &Vec::new());
    let all: Vec<String> = r.diags.iter().map(|d| d.render()).collect();
    assert!(all.iter().any(|d| d.contains("cycle")), "{all:?}");
}

#[test]
fn only_real_cycles_are_reported() {
    let mut v = vault();
    v.entities[1] = entity("character", "菩提祖师", vec![("师从", vec!["character:孙悟空"])], "祖师。");
    v.entities.push(entity("character", "白龙马", vec![("师从", vec!["character:孙悟空"])], "小白龙。"));
    v.entities.push(entity("character", "猪八戒", vec![("师从", vec!["character:菩提祖师"])], "天蓬元帅。"));
    let r = run(&v, &Vec::new());
    let cycles: Vec<String> = r.diags.iter().filter(|d| d.code == "cycle").map(|d| d.message.clone()).collect();
    assert_eq!(cycles.len(), 1, "{cycles:?}");
    for m in &cycles {
        let tail = m.rsplit("cycles: ").next().unwrap();
        let refs: Vec<&str> = tail.split(" → ").collect();
        assert!(refs.len() >= 3 && refs.first() == refs.last(), "{m}");
    }
}

#[test]
fn acyclic_relation_with_a_diamond_has_no_cycle() {
    let mut v = vault();
    v.entities.push(entity("character", "猪八戒", vec![("师从", vec!["character:孙悟空", "character:菩提祖师"])], "天蓬元帅。"));
    v.entities.push(entity("character", "沙僧", vec![("师从", vec!["character:猪八戒", "character:孙悟空"])], "卷帘大将。"));
    let r = run(&v, &Vec::new());
    let all: Vec<String> = r.diags.iter().map(|d| d.render()).collect();
    assert!(!all.iter().any(|d| d.contains("cycle")), "{all:?}");
}

#[test]
fn suggestions_for_near_misses() {
    let cands = vec!["孙悟空".to_string(), "猪八戒".to_string()];
    assert_eq!(closest("孙悟", &cands), Some("孙悟空".to_string()));
    assert_eq!(closest("唐僧取经", &cands), None);
    let refs = vec![EntityRef::parse("character:孙悟空").unwrap(), EntityRef::parse("character:猪八戒").unwrap()];
    let t = EntityRef::parse("character:孙悟").unwrap();
    assert_eq!(did_you_mean(&t, &refs), Some("character:default/孙悟空".to_string()));
}

#[test]
fn queries_over_a_small_map() {
    let v = vault();
    let g = Graph::build(&v);
    let wk = EntityRef::parse("character:孙悟空").unwrap();
    let pt = EntityRef::parse("character:菩提祖师").unwrap();
    let nm = EntityRef::parse("character:牛魔王").unwrap();
    let t = trace(&g, &nm, &pt, 5, 6);
    assert_eq!(t.paths.len(), 1);
    assert_eq!(t.paths[0].length, 2);
    assert_eq!(t.paths[0].hops[1].to, "character:default/菩提祖师");
    let s = search(&g, "金箍棒", None, None, 20);
    assert_eq!(s.results.len(), 1);
    assert_eq!(s.results[0].reference, "artifact:default/如意金箍棒");
    assert_eq!(s.results[0].matched, "name-substring");
    let s = search(&g, "孙悟空", None, None, 20);
    assert_eq!(s.results[0].matched, "name-exact");
    let x = get(&g, &wk);
    assert_eq!(x.path, "laplace/character/孙悟空.md");
    assert_eq!(x.outbound.len(), 2);
    assert_eq!(x.inbound.len(), 1);
    let n = neighbors(&g, &pt, 1, &Vec::new(), &Vec::new());
    assert_eq!(n.nodes.len(), 2);
    let i = impact(&g, &pt, 2, &Vec::new());
    assert_eq!(i.affected, 2);
    assert_eq!(i.buckets[0].entities[0].reference, "character:default/孙悟空");
    let a = architecture(&g);
    assert_eq!(a.entities, 4);
    assert_eq!(a.relations, 3);
}

#[test]
fn trace_keeps_the_shortest_paths() {
    let mut v = vault();
    v.entities[3] = entity("character", "牛魔王", vec![("结义", vec!["character:孙悟空"]), ("师从", vec!["character:菩提祖师"])], "平天大圣。");
    let g = Graph::build(&v);
    let wk = EntityRef::parse("character:孙悟空").unwrap();
    let pt = EntityRef::parse("character:菩提祖师").unwrap();
    let all = trace(&g, &wk, &pt, 5, 6);
    assert_eq!(all.paths.len(), 2);
    assert_eq!(all.paths[0].length, 1);
    assert_eq!(all.paths[1].length, 2);
    assert_eq!(all.paths[1].hops[0].direction, "<->");
    assert_eq!(all.paths[1].hops[0].to, "character:default/牛魔王");
    let one = trace(&g, &wk, &pt, 1, 6);
    assert_eq!(one.paths.len(), 1);
    assert_eq!(one.paths[0].length, 1);
    assert_eq!(one.paths[0].hops[0].direction, "->");
    let short = trace(&g, &wk, &pt, 5, 1);
    assert_eq!(short.paths.len(), 1);
}

#[test]
fn trace_lists_each_path_once() {
    let mut v = vault();
    v.entities[3] = entity("character", "牛魔王", vec![("结义", vec!["character:孙悟空"]), ("师从", vec!["character:菩提祖师"])], "平天大圣。");
    let g = Graph::build(&v);
    let wk = EntityRef::parse("character:孙悟空").unwrap();
    let pt = EntityRef::parse("character:菩提祖师").unwrap();
    let r = trace(&g, &wk, &pt, 10, 6);
    let keys: Vec<Vec<(String, String, String)>> = r
        .paths
        .iter()
        .map(|p| p.hops.iter().map(|h| (h.rel.clone(), h.direction.to_string(), h.to.clone())).collect())
        .collect();
    assert!(keys.len() >= 2);
    for i in 0..keys.len() {
        for j in (i + 1)..keys.len() {
            assert_ne!(keys[i], keys[j]);
        }
    }
}

#[test]
fn summary_fits_its_budget() {
    let v = vault();
    let s = render(&v, 4000, None, None);
    assert_eq!(s.tokens, estimate_tokens(&s.text));
    assert!(s.text.contains("孙悟空"));
    let tight = render(&v, 60, None, None);
    if tight.tier > 0 {
        assert!(tight.tokens <= 60);
    }
}

// ───────────────────────── the constitution ─────────────────────────

use laplace::commit::simulate_schema;
use laplace::schema_ops::{add_kind, add_relation, rename_kind, rename_relation, set_given, RelationSpec};

#[test]
fn schema_ops_declare_and_refuse() {
    let v = vault();
    let err = add_relation(&v, "克制", RelationSpec { description: "  ".to_string(), ..RelationSpec::default() }).unwrap_err();
    assert!(err.contains("reading direction"), "{err}");
    let p = add_relation(&v, "克制", RelationSpec { description: "A 克制 B —— A 是克星，B 被克制。".to_string(), ..RelationSpec::default() }).unwrap();
    assert_eq!(p.message, "declared relation `克制` — cite the charter question it serves");
    let (_, d) = p.schema.relations.iter().find(|(k, _)| k == "克制").unwrap();
    assert_eq!(d.propagation, Propagation::ToSource);
    assert_eq!(add_relation(&v, "持有", RelationSpec::default()).unwrap_err(), "relation `持有` already declared");
    let p = add_kind(&v, "location", Some("地点。".to_string())).unwrap();
    assert_eq!(p.schema.kinds.len(), 3);
    assert_eq!(p.schema.kinds[2].0, "location");
    assert_eq!(add_kind(&v, "artifact", None).unwrap_err(), "kind `artifact` already declared");
    assert_eq!(simulate_schema(&v, &p, &Vec::new()), Ok(()));
}

#[test]
fn schema_set_fields() {
    let v = vault();
    let p = laplace::schema_ops::set(&v, "relations.结义.propagation", "to-source").unwrap();
    assert_eq!(p.message, "set relations.结义.propagation = to-source");
    let (_, d) = p.schema.relations.iter().find(|(k, _)| k == "结义").unwrap();
    assert_eq!(d.propagation, Propagation::ToSource);
    assert_eq!(laplace::schema_ops::set(&v, "relations.结义.propagation", "sideways").unwrap_err(), "propagation is to-source|to-target|both|none");
    assert_eq!(set_given(&v, "relations.结义.propagation", "x", Some("both".to_string())).unwrap().schema.relations[2].1.propagation, Propagation::Both);
    assert_eq!(laplace::schema_ops::set(&v, "relations.结义.symmetric", "yes").unwrap_err(), "true|false");
    let p = laplace::schema_ops::set(&v, "relations.持有.from", "character, artifact").unwrap();
    assert_eq!(p.schema.relations[1].1.from, Some(vec!["character".to_string(), "artifact".to_string()]));
    assert_eq!(laplace::schema_ops::set(&v, "kinds", "x").unwrap_err(), "path is (kinds|relations).<name>.<field>");
    assert_eq!(laplace::schema_ops::set(&v, "kinds.monster.description", "x").unwrap_err(), "no kind `monster`");
    assert_eq!(laplace::schema_ops::set(&v, "kinds.artifact.colour", "x").unwrap_err(), "kinds have no settable field `colour` (only description)");
    assert_eq!(laplace::schema_ops::set(&v, "things.a.b", "x").unwrap_err(), "unknown section `things` — kinds or relations");
    assert_eq!(laplace::schema_ops::set(&v, "relations.持有.weight", "x").unwrap_err(), "relations have no settable field `weight`");
    let p = laplace::schema_ops::set(&v, "kinds.artifact.description", "宝贝。").unwrap();
    assert_eq!(p.schema.kinds[0].1.description.as_deref(), Some("宝贝。"));
}

#[test]
fn schema_renames_rewrite_the_vault() {
    let v = vault();
    let p = rename_relation(&v, "师从", "拜师").unwrap();
    assert_eq!(p.message, "renamed relation `师从` → `拜师`; rewrote 1 entity files");
    assert_eq!(p.mutated.len(), 1);
    assert!(p.mutated[0].fm.relations.iter().any(|(k, _)| k == "拜师"));
    assert_eq!(rename_relation(&v, "拜师", "x").unwrap_err(), "no relation `拜师`");
    assert_eq!(rename_relation(&v, "师从", "持有").unwrap_err(), "relation `持有` already exists — merging types is a judgment call, do it by hand");
    assert_eq!(simulate_schema(&v, &p, &Vec::new()), Ok(()));
    let p = rename_kind(&v, "artifact", "法宝").unwrap();
    assert_eq!(p.message, "renamed kind `artifact` → `法宝`; moved/rewrote 2 entity files");
    assert_eq!(p.deleted, vec!["artifact/如意金箍棒.md".to_string()]);
    assert!(p.mutated.iter().any(|e| e.file == "法宝/如意金箍棒.md"));
    let (_, d) = p.schema.relations.iter().find(|(k, _)| k == "持有").unwrap();
    assert_eq!(d.to, Some(vec!["法宝".to_string()]));
    assert_eq!(simulate_schema(&v, &p, &Vec::new()), Ok(()));
    assert_eq!(rename_kind(&v, "monster", "x").unwrap_err(), "no kind `monster`");
    assert_eq!(rename_kind(&v, "artifact", "character").unwrap_err(), "kind `character` already exists — merging kinds is a judgment call, do it by hand");
}

#[test]
fn unlink_undoes_link() {
    let v = vault();
    let p = link(&v, "character:牛魔王", "持有", "artifact:如意金箍棒", Some("借来的".to_string())).unwrap();
    let fm = match p.change {
        Some(Change::Write { fm, .. }) => fm,
        _ => panic!("link writes the source"),
    };
    let mut after = vault();
    after.entities[3].fm = fm;
    let u = unlink(&after, "character:牛魔王", "持有", "artifact:如意金箍棒").unwrap();
    match u.change {
        Change::Write { fm, .. } => {
            let names: Vec<&String> = fm.relations.iter().map(|(k, _)| k).collect();
            assert_eq!(names, vec!["结义"]);
            assert_eq!(fm.relations[0].1.len(), 1);
            assert_eq!(fm.relations[0].1[0].target(), "character:孙悟空");
        }
        _ => panic!("unlink writes the source"),
    }
}

#[test]
fn endpoint_refusals_list_the_allowed_kinds() {
    let v = vault();
    let err = link(&v, "character:孙悟空", "持有", "character:牛魔王", None).unwrap_err();
    assert_eq!(err, "bad-endpoint: `持有` edges point at [\"artifact\"], not at kind `character`");
    let err = link(&v, "artifact:如意金箍棒", "持有", "artifact:如意金箍棒", None).unwrap_err();
    assert_eq!(err, "bad-endpoint: `持有` edges start from [\"character\"], not from kind `artifact`");
}

#[test]
fn schema_values_are_read_as_yaml_strings() {
    let v = vault();
    let p = laplace::schema_ops::set(&v, "relations.结义.propagation", "\"to-target\"").unwrap();
    let (_, d) = p.schema.relations.iter().find(|(k, _)| k == "结义").unwrap();
    assert_eq!(d.propagation, Propagation::ToTarget);
    let p = laplace::schema_ops::set(&v, "relations.结义.propagation", "'none'").unwrap();
    assert_eq!(p.schema.relations[2].1.propagation, Propagation::Neither);
}

#[test]
fn search_ignores_case() {
    let mut v = vault();
    v.entities.push(entity("artifact", "Ruyi", vec![], "A staff."));
    let g = Graph::build(&v);
    let s = search(&g, "RUYI", None, None, 20);
    assert_eq!(s.results.len(), 1);
    assert_eq!(s.results[0].matched, "name-exact");
    let s = search(&g, "ru", None, None, 20);
    assert_eq!(s.results[0].matched, "name-prefix");
}

#[test]
fn anchors_that_do_not_parse_or_match() {
    let mut v = vault();
    v.entities[0].fm.source = vec!["src/wukong/**".to_string(), "[".to_string(), "gone/*.rs".to_string()];
    let files = vec!["src/wukong/a.rs".to_string(), "README.md".to_string()];
    let d = laplace::validate::anchor_checks(&v.entities, &files, "/p");
    assert_eq!(d.len(), 2);
    assert_eq!(d[0].code, "bad-glob");
    assert_eq!(d[0].message, "`[` is not a valid glob");
    assert_eq!(d[1].code, "dead-anchor");
    assert_eq!(d[1].message, "`gone/*.rs` matches nothing under /p — a renamed file degrades silently to \"never stale\"");
}

#[test]
fn drift_audit_sorts_out_the_changes() {
    let mut v = vault();
    v.schema.ignore = vec!["*.lock".to_string()];
    v.entities[0].fm.source = vec!["src/wukong/**".to_string()];
    v.entities[1].fm.source = vec!["scratch/*.txt".to_string()];
    v.entities[2].fm.source = vec!["src/bang.rs".to_string()];
    let committed = vec![
        "proj/src/wukong/a.rs".to_string(),
        "proj/README.md".to_string(),
        "proj/laplace/character/x.md".to_string(),
        "other/z.rs".to_string(),
        "proj/Cargo.lock".to_string(),
    ];
    let dirty = vec![" M proj/src/bang.rs".to_string()];
    let listed = vec!["proj/src/wukong/a.rs".to_string(), "proj/src/bang.rs".to_string()];
    let disk = vec!["src/wukong/a.rs".to_string(), "src/bang.rs".to_string(), "scratch/a.txt".to_string(), "README.md".to_string()];
    let r = laplace::drift::audit(&v, "proj", "laplace", &committed, &dirty, &listed, &disk);
    assert_eq!(r.changed, vec!["README.md".to_string(), "src/bang.rs".to_string(), "src/wukong/a.rs".to_string()]);
    assert_eq!(r.stale.len(), 2);
    assert_eq!(r.stale[0], ("character:default/孙悟空".to_string(), vec!["src/wukong/a.rs".to_string()]));
    assert_eq!(r.stale[1], ("artifact:default/如意金箍棒".to_string(), vec!["src/bang.rs".to_string()]));
    assert_eq!(r.uncovered, vec!["README.md".to_string()]);
    assert_eq!(r.dead_anchors, vec!["character:default/菩提祖师".to_string()]);
    assert_eq!(r.unanchored, 1);
}

#[test]
fn init_scaffolds_a_named_constitution() {
    let t = laplace::schema_ops::starter_schema_text(Some("西游"), Some("dir"));
    assert!(t.starts_with("apiVersion: laplace/v1\nname: 西游\n# root: .."), "{t}");
    assert!(t.contains("  thing: { description: 一类东西。描述应写清它为什么存在、负责什么。 }\n"));
    assert!(t.ends_with("    propagation: to-source\n"));
    assert!(laplace::schema_ops::starter_schema_text(None, Some("dir")).starts_with("apiVersion: laplace/v1\nname: dir\n"));
    assert!(laplace::schema_ops::starter_schema_text(None, None).starts_with("apiVersion: laplace/v1\nname: project\n"));
}

#[test]
fn relations_given_as_arguments() {
    fn bare(e: &RelEntry) -> &str {
        match e {
            RelEntry::Bare(s) => s.as_str(),
            RelEntry::Object { .. } => panic!("a bare ref was given"),
        }
    }
    let args = vec!["师从=character:菩提祖师".to_string(), "持有=artifact:如意金箍棒".to_string(), "师从=character:唐僧".to_string(), "a=b=c".to_string()];
    let r = laplace::ops::relation_args(&args).unwrap();
    assert_eq!(r.len(), 3);
    assert_eq!(r[0].0, "a");
    assert_eq!(r[0].1.iter().map(bare).collect::<Vec<_>>(), vec!["b=c"]);
    let keys: Vec<&str> = r.iter().map(|(k, _)| k.as_str()).collect();
    let mut sorted = keys.clone();
    sorted.sort();
    assert_eq!(keys, sorted);
    let (_, t) = r.iter().find(|(k, _)| k == "师从").unwrap();
    assert_eq!(t.iter().map(bare).collect::<Vec<_>>(), vec!["character:菩提祖师", "character:唐僧"]);
    let err = laplace::ops::relation_args(&vec!["师从=x".to_string(), "oops".to_string(), "also".to_string()]).unwrap_err();
    assert_eq!(err, "--rel takes type=target, got `oops`");
}

#[test]
fn an_entity_is_read_back_where_it_is_written() {
    for text in ["character:孙悟空", "character:龙宫/敖广"] {
        let r = EntityRef::parse(text).unwrap();
        let parts = laplace::ops::entity_path_parts(&r);
        assert_eq!(parts.join("/"), entity_path(&r));
        let (e, d) = laplace::vault::parse_entity(&parts, "正文。".to_string(), FmParse::Parsed(FrontMatter::default()));
        assert!(d.is_empty());
        assert_eq!(e.unwrap().eref, r);
    }
}

#[test]
fn a_larger_budget_never_lowers_the_tier() {
    let v = vault();
    let mut last = 0u8;
    for b in [0usize, 10, 30, 60, 100, 200, 400, 4000] {
        let s = render(&v, b, None, None);
        assert!(s.tier >= last, "budget {b}: tier {} after {last}", s.tier);
        last = s.tier;
    }
    assert_eq!(last, 3);
}

#[test]
fn the_first_sentence_of_a_first_sentence_is_itself() {
    for t in ["灵明石猴。东胜神洲出身。", "  Runs v1.2 of the loop. More.", "first line\nsecond", "x.", ""] {
        let once = laplace::model::first_sentence(t);
        assert_eq!(laplace::model::first_sentence(&once), once);
    }
    let long = format!("{}孙悟空", "a".repeat(119));
    let once = laplace::model::first_sentence(&long);
    assert_eq!(laplace::model::first_sentence(&once), once);
}

#[test]
fn linking_a_stated_edge_writes_nothing() {
    let v = vault();
    let p = link(&v, "character:孙悟空", "师从", "character:菩提祖师", Some("again".to_string())).unwrap();
    assert!(p.noop);
    assert!(p.change.is_none());
    assert!(p.message.starts_with("no-op"));
    let p = link(&v, "character:孙悟空", "结义", "character:牛魔王", None).unwrap();
    assert!(p.noop && p.change.is_none());
}
