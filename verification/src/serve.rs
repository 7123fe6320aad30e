//! The read-only HTML view: two routes, the vault reloaded per request.
//! This module routes a request and decides what the graph route answers;
//! the page itself, loading the vault and writing JSON are the caller's.

use vstd::prelude::*;
use crate::diag::{diags_view, error_count, render_text, Report};
use crate::text::{chars_of, first_index, string_of_range};

verus! {

/// Where a request goes.
#[derive(PartialEq, Eq, Structural, Clone, Copy, Debug)]
pub enum Route {
    /// `/` or `/index.html`: the page.
    Page,
    /// `/api/graph`: the graph as JSON.
    Graph,
    /// Anything else.
    Missing,
}

/// The path of a URL: everything before the first `?`.
pub open spec fn path_of(url: Seq<char>) -> Seq<char> {
    match first_index(url, '?') {
        Some(i) => url.take(i),
        None => url,
    }
}

pub open spec fn route_of(url: Seq<char>) -> Route {
    let p = path_of(url);
    if p == "/"@ || p == "/index.html"@ {
        Route::Page
    } else if p == "/api/graph"@ {
        Route::Graph
    } else {
        Route::Missing
    }
}

/// Route a request URL (its query string ignored).
pub fn route(url: &str) -> (r: Route)
    ensures
        r == route_of(url@),
{
    let v = chars_of(url);
    let p = match crate::text::find_char(&v, '?') {
        Some(i) => {
            assert(v@.subrange(0, i as int) =~= v@.take(i as int));
            string_of_range(&v, 0, i)
        },
        None => crate::text::owned(url),
    };
    if crate::text::str_eq(p.as_str(), "/") || crate::text::str_eq(p.as_str(), "/index.html") {
        Route::Page
    } else if crate::text::str_eq(p.as_str(), "/api/graph") {
        Route::Graph
    } else {
        Route::Missing
    }
}

/// An HTTP reply.
pub struct Reply {
    pub status: u16,
    pub content_type: &'static str,
    pub body: String,
}

pub open spec fn not_found_text() -> Seq<char> {
    "not found — routes: / and /api/graph"@
}

/// Answer a request: the page for the page route, `graph` (the graph
/// route's JSON) for the graph route, a 404 naming the routes otherwise.
pub fn respond(url: &str, page: &str, graph: &str) -> (r: Reply)
    ensures
        route_of(url@) == Route::Page ==> r.status == 200 && r.content_type@ == "text/html; charset=utf-8"@ && r.body@ == page@,
        route_of(url@) == Route::Graph ==> r.status == 200 && r.content_type@ == "application/json; charset=utf-8"@ && r.body@ == graph@,
        route_of(url@) == Route::Missing ==> r.status == 404 && r.content_type@ == "text/plain; charset=utf-8"@ && r.body@ == not_found_text(),
{
    match route(url) {
        Route::Page => Reply { status: 200, content_type: "text/html; charset=utf-8", body: crate::text::owned(page) },
        Route::Graph => Reply { status: 200, content_type: "application/json; charset=utf-8", body: crate::text::owned(graph) },
        Route::Missing => Reply {
            status: 404,
            content_type: "text/plain; charset=utf-8",
            body: crate::text::owned("not found — routes: / and /api/graph"),
        },
    }
}

/// What the graph route shows: a vault with errors is not projected, but
/// all its findings are disclosed; a clean one is, with its warning count.
pub enum GraphStatus {
    Broken { errors: usize, diagnostics: Vec<String> },
    Clean { warnings: usize },
}

/// Decide the graph route's answer from the vault's validation report.
pub fn graph_status(report: &Report) -> (r: GraphStatus)
    ensures
        match r {
            GraphStatus::Broken { errors, diagnostics } => errors == error_count(diags_view(report.diags@)) && errors > 0
                && crate::model::strs(diagnostics@) == diags_view(report.diags@).map_values(|d: crate::diag::DiagnosticV| render_text(d)),
            GraphStatus::Clean { warnings } => error_count(diags_view(report.diags@)) == 0 && warnings == report.diags@.len(),
        },
{
    let errors = report.errors();
    if errors > 0 {
        let mut out: Vec<String> = Vec::new();
        let mut i: usize = 0;
        while i < report.diags.len()
            invariant
                i <= report.diags.len(),
                out@.len() == i,
                forall|j: int| 0 <= j < i ==> (#[trigger] out@[j])@ == render_text(report.diags@[j]@),
            decreases report.diags.len() - i,
        {
            out.push(report.diags[i].render());
            i = i + 1;
        }
        assert(crate::model::strs(out@) =~= diags_view(report.diags@).map_values(|d: crate::diag::DiagnosticV| render_text(d)));
        GraphStatus::Broken { errors, diagnostics: out }
    } else {
        let warnings = report.warnings();
        GraphStatus::Clean { warnings }
    }
}

} // verus!
