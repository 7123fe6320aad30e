use laplace::diag::{Diagnostic, Report};
use laplace::drift::{drift_base, no_git_notice, porcelain_path, to_project};
use laplace::mcp::{rpc_action, scan_order, select_vault, unknown_method, McpMode, RpcAction, VaultEntry};
use laplace::serve::{graph_status, respond, route, GraphStatus, Route};
use laplace::skill::{install, MCP_INSTRUCTIONS, SKILL_NAME, SKILL_TEXT};

#[test]
fn routes_and_replies() {
    assert_eq!(route("/"), Route::Page);
    assert_eq!(route("/index.html?x=1"), Route::Page);
    assert_eq!(route("/api/graph"), Route::Graph);
    assert_eq!(route("/nope"), Route::Missing);
    let r = respond("/", "<html>", "{}");
    assert_eq!((r.status, r.content_type, r.body.as_str()), (200, "text/html; charset=utf-8", "<html>"));
    let r = respond("/api/graph?fresh", "<html>", "{\"ok\":true}");
    assert_eq!((r.status, r.content_type, r.body.as_str()), (200, "application/json; charset=utf-8", "{\"ok\":true}"));
    let r = respond("/nope", "<html>", "{}");
    assert_eq!(r.status, 404);
    assert_eq!(r.body, "not found — routes: / and /api/graph");
}

#[test]
fn graph_route_discloses_a_broken_vault() {
    let report = Report { diags: vec![Diagnostic::err("dangling-ref", Some("a/b.md".to_string()), "no target".to_string())] };
    match graph_status(&report) {
        GraphStatus::Broken { errors, diagnostics } => {
            assert_eq!(errors, 1);
            assert_eq!(diagnostics, vec![report.diags[0].render()]);
        }
        GraphStatus::Clean { .. } => panic!("a broken vault is not projected"),
    }
    match graph_status(&Report { diags: Vec::new() }) {
        GraphStatus::Clean { warnings } => assert_eq!(warnings, 0),
        GraphStatus::Broken { .. } => panic!("a clean vault is projected"),
    }
}

#[test]
fn skill_targets() {
    assert_eq!(SKILL_NAME, "entity-map");
    assert!(MCP_INSTRUCTIONS.contains("laplace_schema"));
    let one = install(Some("/x"), vec!["/y".to_string()]).unwrap();
    assert_eq!(one.len(), 1);
    assert_eq!((one[0].dir.as_str(), one[0].path.as_str()), ("/x/entity-map", "/x/entity-map/SKILL.md"));
    assert_eq!(one[0].text, SKILL_TEXT);
    let two = install(None, vec!["/y/".to_string(), "/z".to_string()]).unwrap();
    let paths: Vec<&str> = two.iter().map(|f| f.path.as_str()).collect();
    assert_eq!(paths, vec!["/y/entity-map/SKILL.md", "/z/entity-map/SKILL.md"]);
    assert!(two.iter().all(|f| f.text == SKILL_TEXT));
    assert!(install(None, Vec::new()).unwrap_err().ends_with("pass --to DIR"));
}

#[test]
fn skill_text_is_embedded_and_installable() {
    assert!(SKILL_TEXT.starts_with("---\nname: entity-map"));
    assert!(SKILL_TEXT.contains("Same-turn updates"));
    assert!(SKILL_TEXT.contains("First use: initialize before consulting"));
    assert!(SKILL_TEXT.contains("Scouts are read-only"));
    assert!(SKILL_TEXT.contains("single writer"));
    assert!(SKILL_TEXT.contains("laplace init"));
    assert!(SKILL_TEXT.contains("Populate in two passes"));
    assert!(SKILL_TEXT.contains("not proof of total repository coverage"));
    assert!(SKILL_TEXT.contains("do not commit merely because"));
    assert!(SKILL_TEXT.contains("repository-wide `source` glob"));
    assert!(SKILL_TEXT.contains("If a matching vault already exists, skip bootstrap"));
    assert!(SKILL_TEXT.contains("When no matching vault exists, initialize only"));
    assert!(SKILL_TEXT.contains("pass `--vault"));
    assert!(SKILL_TEXT.contains("temporary\nfile first"));
    assert!(SKILL_TEXT.contains("drift` cannot audit a project-root vault"));
    assert!(MCP_INSTRUCTIONS.contains("laplace_schema"));

    let files = install(Some("/tmp/t/skills"), Vec::new()).unwrap();
    assert_eq!(files.len(), 1);
    assert!(files[0].path.ends_with("entity-map/SKILL.md"));
    assert_eq!(files[0].text, SKILL_TEXT);

    let places = laplace::skill::skill_candidates(None, None, "/tmp/t");
    assert!(places.iter().any(|(_, skills)| skills.ends_with(".bingo/skills")));
}

fn entry(name: &str, dir: &str, err: Option<&str>) -> VaultEntry {
    VaultEntry { name: name.to_string(), dir: dir.to_string(), load_error: err.map(|e| e.to_string()) }
}

#[test]
fn vault_selection() {
    let single = McpMode::Single("/p/laplace".to_string());
    assert_eq!(select_vault(&single, &Vec::new(), Some("x")), Ok("/p/laplace".to_string()));
    let scan = McpMode::Scan("/root".to_string());
    let es = vec![entry("bingo", "/root/b/laplace", None), entry("xiyouji", "/root/x/laplace", None), entry("bad", "/root/z", Some("boom"))];
    assert_eq!(select_vault(&scan, &es, Some("xiyouji")), Ok("/root/x/laplace".to_string()));
    assert_eq!(select_vault(&scan, &es, Some("b/laplace")), Ok("/root/b/laplace".to_string()));
    assert_eq!(select_vault(&scan, &es, Some("bad")).unwrap_err(), "no vault `bad` — available: bingo, xiyouji");
    assert_eq!(select_vault(&scan, &es, None).unwrap_err(), "several vaults here — pass `vault`: bingo, xiyouji");
    assert_eq!(select_vault(&scan, &es[..1].iter().map(|e| entry(&e.name, &e.dir, None)).collect(), None), Ok("/root/b/laplace".to_string()));
    assert_eq!(select_vault(&scan, &Vec::new(), None).unwrap_err(), "no loadable vault under /root");
    let unsorted = vec![entry("b", "/2", None), entry("a", "/9", None), entry("b", "/1", None)];
    assert_eq!(scan_order(&unsorted), vec![1, 2, 0]);
}

#[test]
fn rpc_dispatch() {
    assert_eq!(rpc_action(false, "initialize"), RpcAction::Silent);
    assert_eq!(rpc_action(true, "initialize"), RpcAction::Initialize);
    assert_eq!(rpc_action(true, "ping"), RpcAction::Ping);
    assert_eq!(rpc_action(true, "tools/list"), RpcAction::ListTools);
    assert_eq!(rpc_action(true, "tools/call"), RpcAction::CallTool);
    assert_eq!(rpc_action(true, "no/such/method"), RpcAction::Unknown);
    assert_eq!(unknown_method("x/y"), "unknown method x/y");
}

#[test]
fn git_output_reading() {
    assert_eq!(porcelain_path(" M src/a.rs"), "src/a.rs");
    assert_eq!(porcelain_path("R  old.rs -> new.rs"), "new.rs");
    assert_eq!(porcelain_path("?? 文件.md"), "文件.md");
    assert_eq!(porcelain_path("M"), "");
    assert_eq!(to_project("proj", "proj/src/a.rs"), Some("src/a.rs".to_string()));
    assert_eq!(to_project("proj", "other/a.rs"), None);
    assert_eq!(to_project("", "a/b.rs"), Some("a/b.rs".to_string()));
    assert_eq!(drift_base(Some("HEAD~2"), Some("abc")), Some("HEAD~2".to_string()));
    assert_eq!(drift_base(None, Some(" abc\n")), Some("abc".to_string()));
    assert_eq!(drift_base(None, Some("\n")), None);
    assert_eq!(drift_base(None, None), None);
    assert!(no_git_notice("/p").starts_with("/p is not inside a git repository"));
}

#[test]
fn queries_refuse_a_vault_with_errors() {
    assert_eq!(
        laplace::mcp::query_refusal("laplace_trace", 3),
        Some("refusing to query an invalid vault (3 errors) — run laplace_validate".to_string())
    );
    assert_eq!(laplace::mcp::query_refusal("laplace_trace", 0), None);
    assert_eq!(laplace::mcp::query_refusal("laplace_validate", 3), None);
    assert_eq!(laplace::mcp::query_refusal("laplace_schema", 12).map(|m| m.contains("(12 errors)")), Some(true));
}

#[test]
fn query_tools_are_told_apart() {
    assert!(laplace::mcp::queries_graph("laplace_impact"));
    assert!(!laplace::mcp::queries_graph("laplace_link"));
}

#[test]
fn skill_install_places() {
    let c = laplace::skill::skill_candidates(Some("/home/u"), None, "/work");
    let got: Vec<(&str, &str)> = c.iter().map(|(a, b)| (a.as_str(), b.as_str())).collect();
    assert_eq!(got, vec![("/home/u/.config/bingo", "/home/u/.config/bingo/skills"), ("/work/.bingo", "/work/.bingo/skills")]);
    let c = laplace::skill::skill_candidates(Some("/home/u"), Some("/cfg"), "/work");
    assert_eq!(c[0].1, "/cfg/bingo/skills");
    assert_eq!(laplace::skill::skill_candidates(None, Some("/cfg"), "/work").len(), 1);
}
