use laplace::model::{KindDecl, Propagation, RelationDecl, Schema};
use laplace::query::{
    ArchitectureResult, EdgeEnd, GetResult, ImpactBucket, ImpactEntity, ImpactHop, ImpactResult, KindCount, KindEdge,
    NeighborEdge, NeighborNode, NeighborsResult, SearchHit, SearchResult, TraceHop, TracePath, TraceResult,
};
use laplace::render::{architecture_text, get_text, impact_text, neighbors_text, schema_text, search_text, trace_text};

#[test]
fn search_lines_pad_the_ref_and_what_matched() {
    let r = SearchResult {
        query: "a".to_string(),
        results: vec![SearchHit { reference: "module:default/api".to_string(), score: 80, matched: "name-prefix", summary: "入口。".to_string() }],
    };
    let line = search_text(&r);
    assert_eq!(line, format!("{:<40} {} {:<15} {}\n", "module:default/api", 80, "name-prefix", "入口。"));
    assert_eq!(line.chars().take_while(|c| *c != '8').count(), 41);
    assert_eq!(search_text(&SearchResult { query: "x".to_string(), results: Vec::new() }), "no matches\n");
}

#[test]
fn padding_counts_characters_not_bytes() {
    let r = SearchResult {
        query: "孙".to_string(),
        results: vec![SearchHit { reference: "character:default/孙悟空".to_string(), score: 100, matched: "name-exact", summary: String::new() }],
    };
    let line = search_text(&r);
    assert_eq!(line, format!("{:<40} 100 {:<15} \n", "character:default/孙悟空", "name-exact"));
    assert_eq!(line.chars().take_while(|c| *c != '1').count(), 41);
}

#[test]
fn trace_lines_follow_each_hop() {
    let r = TraceResult {
        from: "a:default/x".to_string(),
        to: "a:default/z".to_string(),
        paths: vec![TracePath {
            length: 2,
            hops: vec![
                TraceHop { rel: "uses".to_string(), direction: "->", to: "a:default/y".to_string() },
                TraceHop { rel: "knows".to_string(), direction: "<->", to: "a:default/z".to_string() },
            ],
        }],
    };
    assert_eq!(trace_text(&r), "(2 hops) a:default/x ->[uses] a:default/y <->[knows] a:default/z\n");
    let none = TraceResult { from: "a:default/x".to_string(), to: "a:default/z".to_string(), paths: Vec::new() };
    assert_eq!(trace_text(&none), "no path between a:default/x and a:default/z\n");
}

#[test]
fn neighbors_lines() {
    let r = NeighborsResult {
        center: "a:default/x".to_string(),
        depth: 1,
        nodes: vec![NeighborNode { reference: "a:default/y".to_string(), distance: 1, title: "y".to_string(), summary: "Y.".to_string() }],
        edges: vec![
            NeighborEdge { from: "a:default/x".to_string(), rel: "uses".to_string(), to: "a:default/y".to_string(), symmetric: false, note: None },
            NeighborEdge { from: "a:default/x".to_string(), rel: "knows".to_string(), to: "a:default/y".to_string(), symmetric: true, note: Some("old".to_string()) },
        ],
    };
    assert_eq!(
        neighbors_text(&r),
        format!(
            "neighborhood of a:default/x (depth 1)\n  [1] {:<40} Y.\nedges:\n  a:default/x --uses-> a:default/y \n  a:default/x --knows<-> a:default/y (old)\n",
            "a:default/y"
        )
    );
}

#[test]
fn impact_lines_name_the_way_there() {
    let r = ImpactResult {
        changed: "a:default/x".to_string(),
        depth: 2,
        affected: 1,
        buckets: vec![ImpactBucket {
            distance: 2,
            entities: vec![ImpactEntity {
                reference: "a:default/z".to_string(),
                summary: String::new(),
                path: vec![
                    ImpactHop { via: "uses".to_string(), from: "a:default/x".to_string(), to: "a:default/y".to_string() },
                    ImpactHop { via: "owns".to_string(), from: "a:default/y".to_string(), to: "a:default/z".to_string() },
                ],
            }],
        }],
    };
    assert_eq!(
        impact_text(&r),
        format!(
            "impact of changing a:default/x — 1 affected within depth 2 (candidate set, not an oracle)\ndistance 2:\n  {:<40} via uses → owns\n",
            "a:default/z"
        )
    );
}

#[test]
fn architecture_lines() {
    let r = ArchitectureResult {
        project: "p".to_string(),
        entities: 3,
        relations: 2,
        kinds: vec![KindCount { kind: "module".to_string(), count: 3 }],
        edges: vec![KindEdge { from_kind: "module".to_string(), rel: "uses".to_string(), to_kind: "module".to_string(), count: 2 }],
    };
    assert_eq!(
        architecture_text(&r),
        "p — 3 entities, 2 relations\nkinds:\n  module       3\nedges (kind-level):\n  module --uses-> module  ×2\n"
    );
}

#[test]
fn get_shows_both_directions_and_the_body() {
    let r = GetResult {
        reference: "a:default/x".to_string(),
        path: "laplace/a/x.md".to_string(),
        title: "X".to_string(),
        tags: vec!["core".to_string(), "old".to_string()],
        lifecycle: Some("active".to_string()),
        extra: Vec::new(),
        source: Vec::new(),
        body: "Body.".to_string(),
        outbound: vec![("uses".to_string(), vec![EdgeEnd { reference: "a:default/y".to_string(), note: Some("why".to_string()) }])],
        inbound: Vec::new(),
    };
    assert_eq!(
        get_text(&r),
        "a:default/x  (laplace/a/x.md)\ntitle: X\ntags: core, old\nlifecycle: active\noutbound:\n  → uses a:default/y  (why)\n\nBody.\n"
    );
}

#[test]
fn schema_lines() {
    let s = Schema {
        api_version: "laplace/v1".to_string(),
        name: "p".to_string(),
        title: Some("Project".to_string()),
        root: "..".to_string(),
        charter: vec!["What is where?".to_string()],
        ignore: Vec::new(),
        exclusions: Vec::new(),
        kinds: vec![("module".to_string(), KindDecl { description: Some("A module. More.".to_string()) })],
        relations: vec![(
            "uses".to_string(),
            RelationDecl { description: Some("A uses B.".to_string()), propagation: Propagation::ToSource, symmetric: false, from: None, to: None, acyclic: true },
        )],
    };
    assert_eq!(
        schema_text(&s),
        "Project (p)\ncharter:\n  - What is where?\nkinds:\n  module       A module.\nrelations:\n  uses       [to-source, acyclic]  A uses B.\n"
    );
}
