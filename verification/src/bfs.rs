//! Breadth-first walks over the graph: shortest distances within a depth,
//! with one predecessor per reached entity. Two walks exist: the undirected
//! one (neighbors) and the propagation digraph (impact).

use vstd::prelude::*;
use crate::graph::{propagation_steps, undirected_steps, EdgeV, Graph, Step};
use crate::model::{list_contains, strs};

verus! {

/// Which steps a walk may take.
pub enum Walk {
    /// Undirected steps over the listed relation types (all when empty) into
    /// the listed kinds (all when empty; the start is always admitted).
    Undirected { kinds: Vec<String>, relations: Vec<String> },
    /// Propagation steps over the listed relation types (all when empty).
    Propagation { via: Vec<String> },
}

pub enum WalkV {
    Undirected { kinds: Seq<Seq<char>>, relations: Seq<Seq<char>> },
    Propagation { via: Seq<Seq<char>> },
}

impl View for Walk {
    type V = WalkV;

    open spec fn view(&self) -> WalkV {
        match self {
            Walk::Undirected { kinds, relations } => WalkV::Undirected {
                kinds: strs(kinds@),
                relations: strs(relations@),
            },
            Walk::Propagation { via } => WalkV::Propagation { via: strs(via@) },
        }
    }
}

/// May the walk take this step?
pub open spec fn admits(g: Graph, w: WalkV, start: int, st: Step) -> bool {
    let ev = g.edges_spec();
    match w {
        WalkV::Undirected { kinds, relations } => {
            &&& (relations.len() == 0 || relations.contains(ev[st.edge as int].rel))
            &&& (kinds.len() == 0 || st.other == start || kinds.contains(
                g.vault_spec().entities@[st.other as int].eref.kind@,
            ))
        },
        WalkV::Propagation { via } => via.len() == 0 || via.contains(ev[st.edge as int].rel),
    }
}

/// The steps the walk may take from `n`, in graph order.
pub open spec fn walk_steps(g: Graph, w: WalkV, start: int, n: int) -> Seq<Step> {
    let base = match w {
        WalkV::Undirected { .. } => undirected_steps(g.edges_spec(), n),
        WalkV::Propagation { .. } => propagation_steps(
            g.vault_spec().schema@,
            g.edges_spec(),
            n,
        ),
    };
    base.filter(|st: Step| admits(g, w, start, st))
}

/// One admitted step leads from `n` to `m`.
pub open spec fn adjacent(g: Graph, w: WalkV, start: int, n: int, m: int) -> bool {
    exists|j: int|
        0 <= j < walk_steps(g, w, start, n).len() && (#[trigger] walk_steps(g, w, start, n)[j]).other
            == m
}

/// The entities within `k` admitted steps of `start`.
pub open spec fn within(g: Graph, w: WalkV, start: int, k: nat) -> Set<int>
    decreases k,
{
    if k == 0 {
        set![start]
    } else {
        let prev = within(g, w, start, (k - 1) as nat);
        prev.union(Set::new(|m: int| exists|n: int| prev.contains(n) && adjacent(g, w, start, n, m)))
    }
}

/// `m` is first reached after exactly `k` steps.
pub open spec fn at_distance(g: Graph, w: WalkV, start: int, m: int, k: nat) -> bool {
    within(g, w, start, k).contains(m) && (k == 0 || !within(g, w, start, (k - 1) as nat).contains(m))
}

/// The outcome of a walk: for each entity its distance (when within the
/// depth) and, past the start, the entity and edge it was reached from.
pub struct Reached {
    pub dist: Vec<Option<usize>>,
    pub parent: Vec<Option<(usize, usize)>>,
}

pub proof fn lemma_within_mono(g: Graph, w: WalkV, start: int, i: nat, k: nat)
    requires
        i <= k,
    ensures
        within(g, w, start, i).subset_of(within(g, w, start, k)),
    decreases k,
{
    if i < k {
        lemma_within_mono(g, w, start, i, (k - 1) as nat);
    }
}

/// Once a layer adds nothing, no later layer does.
proof fn lemma_within_stable(g: Graph, w: WalkV, start: int, l: nat, k: nat)
    requires
        l >= 1,
        l <= k,
        within(g, w, start, l) == within(g, w, start, (l - 1) as nat),
    ensures
        within(g, w, start, k) == within(g, w, start, l),
    decreases k,
{
    if k > l {
        lemma_within_stable(g, w, start, l, (k - 1) as nat);
        let prev = within(g, w, start, (k - 1) as nat);
        let p2 = within(g, w, start, (l - 1) as nat);
        assert forall|m: int| #[trigger] within(g, w, start, k).contains(m) implies prev.contains(m) by {
            if !prev.contains(m) {
                let n = choose|n: int| prev.contains(n) && adjacent(g, w, start, n, m);
                assert(p2.contains(n));
                assert(within(g, w, start, l).contains(m));
            }
        }
        assert(within(g, w, start, k) =~= prev);
    }
}

/// The admitted steps from `n`.
pub fn admitted_steps(g: &Graph, w: &Walk, start: usize, n: usize) -> (r: Vec<Step>)
    requires
        n < g.vault_spec().entities@.len(),
    ensures
        r@ == walk_steps(*g, w@, start as int, n as int),
        forall|j: int|
            0 <= j < r@.len() ==> (#[trigger] r@[j]).other < g.vault_spec().entities@.len()
                && r@[j].edge < g.edges_spec().len(),
{
    let base = match w {
        Walk::Undirected { .. } => g.undirected(n),
        Walk::Propagation { .. } => g.propagation(n),
    };
    let edges = g.edges();
    proof {
        crate::graph::lemma_steps_bounds(g, n as int);
    }
    let mut r: Vec<Step> = Vec::new();
    let mut k: usize = 0;
    let ghost pred = |st: Step| admits(*g, w@, start as int, st);
    while k < base.len()
        invariant
            k <= base.len(),
            base@ == match w@ {
                WalkV::Undirected { .. } => undirected_steps(g.edges_spec(), n as int),
                WalkV::Propagation { .. } => propagation_steps(
                    g.vault_spec().schema@,
                    g.edges_spec(),
                    n as int,
                ),
            },
            edges_view_ok(edges, g),
            pred == (|st: Step| admits(*g, w@, start as int, st)),
            forall|j: int|
                0 <= j < base@.len() ==> (#[trigger] base@[j]).other < g.vault_spec().entities@.len()
                    && base@[j].edge < g.edges_spec().len(),
            r@ == base@.take(k as int).filter(pred),
            forall|j: int|
                0 <= j < r@.len() ==> (#[trigger] r@[j]).other < g.vault_spec().entities@.len()
                    && r@[j].edge < g.edges_spec().len(),
        decreases base.len() - k,
    {
        let st = base[k];
        let rel = &edges[st.edge].rel;
        assert(g.edges_spec()[st.edge as int] == edges@[st.edge as int]@);
        let ok = match w {
            Walk::Undirected { kinds, relations } => {
                (relations.len() == 0 || list_contains(relations, rel.as_str())) && (kinds.len()
                    == 0 || st.other == start || list_contains(
                    kinds,
                    g.entity(st.other).eref.kind.as_str(),
                ))
            },
            Walk::Propagation { via } => via.len() == 0 || list_contains(via, rel.as_str()),
        };
        proof {
            assert(base@.take(k + 1).drop_last() =~= base@.take(k as int));
            reveal_with_fuel(Seq::filter, 1);
        }
        if ok {
            r.push(st);
        }
        k = k + 1;
    }
    assert(base@.take(base@.len() as int) =~= base@);
    r
}

pub open spec fn edges_view_ok(edges: &Vec<crate::graph::Edge>, g: &Graph) -> bool {
    crate::graph::edges_view(edges@) == g.edges_spec()
}

/// Every entity within `l` steps is first reached at some distance up to `l`.
pub proof fn lemma_first_layer(g: Graph, w: WalkV, start: int, m: int, l: nat)
    requires
        within(g, w, start, l).contains(m),
    ensures
        exists|k: nat| k <= l && at_distance(g, w, start, m, k),
    decreases l,
{
    if l > 0 && within(g, w, start, (l - 1) as nat).contains(m) {
        lemma_first_layer(g, w, start, m, (l - 1) as nat);
        let k = choose|k: nat| k <= l - 1 && at_distance(g, w, start, m, k);
        assert(at_distance(g, w, start, m, k));
    } else {
        assert(at_distance(g, w, start, m, l));
    }
}

/// A distance is unique.
pub proof fn lemma_distance_unique(g: Graph, w: WalkV, start: int, m: int, a: nat, b: nat)
    requires
        at_distance(g, w, start, m, a),
        at_distance(g, w, start, m, b),
    ensures
        a == b,
{
    if a < b {
        lemma_within_mono(g, w, start, a, (b - 1) as nat);
    } else if b < a {
        lemma_within_mono(g, w, start, b, (a - 1) as nat);
    }
}

/// The walk stays among the entities.
proof fn lemma_within_range(g: Graph, w: WalkV, start: int, l: nat)
    requires
        0 <= start < g.vault_spec().entities@.len(),
        edges_in_range_of(g),
    ensures
        forall|m: int| #[trigger] within(g, w, start, l).contains(m) ==> 0 <= m < g.vault_spec().entities@.len(),
    decreases l,
{
    if l > 0 {
        lemma_within_range(g, w, start, (l - 1) as nat);
        let prev = within(g, w, start, (l - 1) as nat);
        assert forall|m: int| #[trigger] within(g, w, start, l).contains(m) implies 0 <= m < g.vault_spec().entities@.len() by {
            if !prev.contains(m) {
                let n = choose|n: int| prev.contains(n) && adjacent(g, w, start, n, m);
                lemma_walk_steps_bounds(g, w, start, n);
                let j = choose|j: int| 0 <= j < walk_steps(g, w, start, n).len() && (#[trigger] walk_steps(g, w, start, n)[j]).other == m;
            }
        }
    }
}

pub open spec fn edges_in_range_of(g: Graph) -> bool {
    crate::graph::edges_in_range(g.edges_spec(), g.vault_spec().entities@.len() as int)
}

pub proof fn lemma_walk_steps_bounds(g: Graph, w: WalkV, start: int, n: int)
    requires
        edges_in_range_of(g),
    ensures
        forall|j: int|
            0 <= j < walk_steps(g, w, start, n).len() ==> (#[trigger] walk_steps(g, w, start, n)[j]).other
                < g.vault_spec().entities@.len() && walk_steps(g, w, start, n)[j].edge < g.edges_spec().len(),
{
    crate::graph::lemma_steps_bounds(&g, n);
    let base = match w {
        WalkV::Undirected { .. } => undirected_steps(g.edges_spec(), n),
        WalkV::Propagation { .. } => propagation_steps(g.vault_spec().schema@, g.edges_spec(), n),
    };
    let f = |st: Step| admits(g, w, start, st);
    crate::graph::lemma_filter_within(base, f);
    assert forall|j: int| 0 <= j < walk_steps(g, w, start, n).len() implies (#[trigger] walk_steps(g, w, start, n)[j]).other
                < g.vault_spec().entities@.len() && walk_steps(g, w, start, n)[j].edge < g.edges_spec().len() by {
        assert(base.contains(base.filter(f)[j]));
    }
}

pub open spec fn pred_node(x: (usize, usize)) -> usize {
    x.0
}

pub open spec fn pred_edge(x: (usize, usize)) -> usize {
    x.1
}

/// One admitted step from `p` over edge `e` reaches `m`.
pub open spec fn step_from(g: Graph, w: WalkV, start: int, p: int, m: int, e: usize) -> bool {
    exists|j: int|
        0 <= j < walk_steps(g, w, start, p).len() && (#[trigger] walk_steps(g, w, start, p)[j]).other
            == m && walk_steps(g, w, start, p)[j].edge == e
}

/// Past the start, a reached entity records the entity one step closer and
/// the edge between them.
pub open spec fn parent_ok(
    g: Graph,
    w: WalkV,
    start: int,
    dist: Seq<Option<usize>>,
    parent: Seq<Option<(usize, usize)>>,
    m: int,
) -> bool {
    dist[m] is Some && dist[m]->0 > 0 ==> {
        &&& parent[m] is Some
        &&& pred_node(parent[m]->0) < dist.len()
        &&& dist[pred_node(parent[m]->0) as int] == Some((dist[m]->0 - 1) as usize)
        &&& step_from(g, w, start, pred_node(parent[m]->0) as int, m, pred_edge(parent[m]->0))
    }
}

/// A recorded distance is the true one, and within `bound`.
pub open spec fn dist_sound(g: Graph, w: WalkV, start: int, dist: Seq<Option<usize>>, m: int, bound: nat) -> bool {
    dist[m] is Some ==> (dist[m]->0 <= bound && at_distance(g, w, start, m, dist[m]->0 as nat))
}

/// Every entity first reached within `bound` steps has its distance recorded.
pub open spec fn dist_complete(g: Graph, w: WalkV, start: int, dist: Seq<Option<usize>>, bound: nat) -> bool {
    forall|m: int, k: nat|
        0 <= m < dist.len() && k <= bound && #[trigger] at_distance(g, w, start, m, k) ==> dist[m] == Some(k as usize)
}

/// Distances and predecessors as a walk of at most `depth` steps finds them.
pub open spec fn reached_ok(g: Graph, w: WalkV, start: int, depth: nat, r: Reached) -> bool {
    let n = g.vault_spec().entities@.len();
    &&& r.dist@.len() == n
    &&& r.parent@.len() == n
    &&& forall|m: int| 0 <= m < n ==> #[trigger] dist_sound(g, w, start, r.dist@, m, depth)
    &&& dist_complete(g, w, start, r.dist@, depth)
    &&& forall|m: int| 0 <= m < n ==> ((#[trigger] r.dist@[m]) is None <==> !within(g, w, start, depth).contains(m))
    &&& forall|m: int| 0 <= m < n ==> #[trigger] parent_ok(g, w, start, r.dist@, r.parent@, m)
}

/// Breadth-first walk from `start`, at most `depth` steps.
pub fn walk(g: &Graph, w: &Walk, start: usize, depth: usize) -> (r: Reached)
    requires
        start < g.vault_spec().entities@.len(),
    ensures
        reached_ok(*g, w@, start as int, depth as nat, r),
{
    let edges = g.edges();
    let n = g.vault().entities.len();
    let ghost gg = *g;
    let ghost wv = w@;
    let ghost st0 = start as int;
    let mut dist: Vec<Option<usize>> = Vec::new();
    let mut parent: Vec<Option<(usize, usize)>> = Vec::new();
    let mut i: usize = 0;
    while i < n
        invariant
            i <= n,
            dist@.len() == i,
            parent@.len() == i,
            forall|j: int| 0 <= j < i ==> (#[trigger] dist@[j]) is None && parent@[j] is None,
        decreases n - i,
    {
        dist.push(None);
        parent.push(None);
        i = i + 1;
    }
    dist.set(start, Some(0));
    let mut frontier: Vec<usize> = Vec::new();
    frontier.push(start);
    let mut level: usize = 0;
    proof {
        assert(at_distance(gg, wv, st0, st0, 0));
        assert forall|m: int| 0 <= m < n implies #[trigger] parent_ok(gg, wv, st0, dist@, parent@, m) by {
            if m != st0 {
                assert(dist@[m] is None);
            }
        }
        assert forall|m: int| 0 <= m < n implies #[trigger] dist_sound(gg, wv, st0, dist@, m, 0) by {
            if m != st0 {
                assert(dist@[m] is None);
            }
        }
        assert forall|m: int, k: nat|
            0 <= m < dist@.len() && k <= 0 && #[trigger] at_distance(gg, wv, st0, m, k) implies dist@[m] == Some(k as usize) by {
            assert(within(gg, wv, st0, 0).contains(m));
        }
        assert forall|m: int| 0 <= m < n && #[trigger] dist@[m] == Some(level) implies frontier@.contains(m as usize) by {
            if m != st0 {
                assert(dist@[m] is None);
            }
            assert(frontier@[0] == start);
        }
    }
    loop
        invariant
            gg == *g,
            wv == w@,
            st0 == start as int,
            n == g.vault_spec().entities@.len(),
            start < n,
            edges_in_range_of(gg),
            level <= depth,
            dist@.len() == n,
            parent@.len() == n,
            forall|m: int| 0 <= m < n ==> #[trigger] dist_sound(gg, wv, st0, dist@, m, level as nat),
            dist_complete(gg, wv, st0, dist@, level as nat),
            forall|j: int| 0 <= j < frontier@.len() ==> (#[trigger] frontier@[j]) < n && dist@[frontier@[j] as int] == Some(level),
            forall|m: int| 0 <= m < n && #[trigger] dist@[m] == Some(level) ==> frontier@.contains(m as usize),
            forall|a: int, b: int| 0 <= a < b < frontier@.len() ==> frontier@[a] != frontier@[b],
            forall|m: int| 0 <= m < n ==> #[trigger] parent_ok(gg, wv, st0, dist@, parent@, m),
        ensures
            level == depth || frontier@.len() == 0,
        decreases depth - level, frontier@.len(),
    {
        if level == depth || frontier.len() == 0 {
            break;
        }
        let mut next: Vec<usize> = Vec::new();
        let mut fi: usize = 0;
        proof {
            assert forall|m: int| 0 <= m < n implies #[trigger] dist_sound(gg, wv, st0, dist@, m, (level + 1) as nat) by {
                assert(dist_sound(gg, wv, st0, dist@, m, level as nat));
            }
            assert forall|m: int| 0 <= m < n && #[trigger] dist@[m] == Some((level + 1) as usize) implies next@.contains(m as usize) by {
                assert(dist_sound(gg, wv, st0, dist@, m, level as nat));
            }
        }
        while fi < frontier.len()
            invariant
                gg == *g,
                wv == w@,
                st0 == start as int,
                n == g.vault_spec().entities@.len(),
                start < n,
                edges_in_range_of(gg),
                level < depth,
                fi <= frontier@.len(),
                dist@.len() == n,
                parent@.len() == n,
                forall|m: int| 0 <= m < n ==> #[trigger] dist_sound(gg, wv, st0, dist@, m, (level + 1) as nat),
                forall|m: int| 0 <= m < n && #[trigger] dist@[m] is Some && dist@[m]->0 <= level ==> dist_sound(gg, wv, st0, dist@, m, level as nat),
                dist_complete(gg, wv, st0, dist@, level as nat),
                forall|j: int| 0 <= j < frontier@.len() ==> (#[trigger] frontier@[j]) < n && dist@[frontier@[j] as int] == Some(level),
                forall|m: int| 0 <= m < n && #[trigger] dist@[m] == Some(level) ==> frontier@.contains(m as usize),
                forall|j: int| 0 <= j < next@.len() ==> (#[trigger] next@[j]) < n && dist@[next@[j] as int] == Some((level + 1) as usize),
                forall|m: int| 0 <= m < n && #[trigger] dist@[m] == Some((level + 1) as usize) ==> next@.contains(m as usize),
                forall|a: int, b: int| 0 <= a < b < next@.len() ==> next@[a] != next@[b],
                forall|q: int, j: int|
                    0 <= q < fi && 0 <= j < walk_steps(gg, wv, st0, frontier@[q] as int).len()
                        ==> #[trigger] dist@[walk_steps(gg, wv, st0, frontier@[q] as int)[j].other as int] is Some,
                forall|m: int| 0 <= m < n ==> #[trigger] parent_ok(gg, wv, st0, dist@, parent@, m),
            decreases frontier@.len() - fi,
        {
            let p = frontier[fi];
            let steps = admitted_steps(g, w, start, p);
            proof {
                assert(dist@[p as int] == Some(level));
                assert(dist_sound(gg, wv, st0, dist@, p as int, (level + 1) as nat));
                assert(at_distance(gg, wv, st0, p as int, level as nat));
            }
            let mut si: usize = 0;
            while si < steps.len()
                invariant
                    gg == *g,
                    wv == w@,
                    st0 == start as int,
                    n == g.vault_spec().entities@.len(),
                    start < n,
                    edges_in_range_of(gg),
                    level < depth,
                    p < n,
                    dist@[p as int] == Some(level),
                    at_distance(gg, wv, st0, p as int, level as nat),
                    steps@ == walk_steps(gg, wv, st0, p as int),
                    forall|j: int| 0 <= j < steps@.len() ==> (#[trigger] steps@[j]).other < n,
                    si <= steps@.len(),
                    dist@.len() == n,
                    parent@.len() == n,
                    fi < frontier@.len(),
                    frontier@[fi as int] == p,
                    forall|m: int| 0 <= m < n ==> #[trigger] dist_sound(gg, wv, st0, dist@, m, (level + 1) as nat),
                    forall|m: int| 0 <= m < n && #[trigger] dist@[m] is Some && dist@[m]->0 <= level ==> dist_sound(gg, wv, st0, dist@, m, level as nat),
                    dist_complete(gg, wv, st0, dist@, level as nat),
                    forall|j: int| 0 <= j < frontier@.len() ==> (#[trigger] frontier@[j]) < n && dist@[frontier@[j] as int] == Some(level),
                    forall|m: int| 0 <= m < n && #[trigger] dist@[m] == Some(level) ==> frontier@.contains(m as usize),
                    forall|j: int| 0 <= j < next@.len() ==> (#[trigger] next@[j]) < n && dist@[next@[j] as int] == Some((level + 1) as usize),
                    forall|m: int| 0 <= m < n && #[trigger] dist@[m] == Some((level + 1) as usize) ==> next@.contains(m as usize),
                    forall|a: int, b: int| 0 <= a < b < next@.len() ==> next@[a] != next@[b],
                    forall|q: int, j: int|
                        0 <= q < fi && 0 <= j < walk_steps(gg, wv, st0, frontier@[q] as int).len()
                            ==> #[trigger] dist@[walk_steps(gg, wv, st0, frontier@[q] as int)[j].other as int] is Some,
                    forall|j: int| 0 <= j < si ==> #[trigger] dist@[steps@[j].other as int] is Some,
                    forall|m: int| 0 <= m < n ==> #[trigger] parent_ok(gg, wv, st0, dist@, parent@, m),
                decreases steps@.len() - si,
            {
                let st = steps[si];
                let m = st.other;
                if dist[m].is_none() {
                    proof {
                        // m is one step past p, and was not reached before
                        assert(steps@[si as int] == st);
                        assert(adjacent(gg, wv, st0, p as int, m as int));
                        assert(within(gg, wv, st0, level as nat).contains(p as int));
                        assert(within(gg, wv, st0, (level + 1) as nat).contains(m as int));
                        if within(gg, wv, st0, level as nat).contains(m as int) {
                            lemma_first_layer(gg, wv, st0, m as int, level as nat);
                            let k = choose|k: nat| k <= level && at_distance(gg, wv, st0, m as int, k);
                            assert(dist@[m as int] == Some(k as usize));
                        }
                        assert(at_distance(gg, wv, st0, m as int, (level + 1) as nat));
                    }
                    let ghost od = dist@;
                    let ghost op = parent@;
                    let ghost on = next@;
                    dist.set(m, Some(level + 1));
                    parent.set(m, Some((p, st.edge)));
                    next.push(m);
                    proof {
                        assert forall|m2: int| 0 <= m2 < n implies #[trigger] dist_sound(gg, wv, st0, dist@, m2, (level + 1) as nat) by {
                            if m2 != m as int {
                                assert(od[m2] == dist@[m2]);
                                assert(dist_sound(gg, wv, st0, od, m2, (level + 1) as nat));
                            }
                        }
                        assert forall|m2: int| 0 <= m2 < n && #[trigger] dist@[m2] is Some && dist@[m2]->0 <= level implies dist_sound(gg, wv, st0, dist@, m2, level as nat) by {
                            if m2 != m as int {
                                assert(od[m2] == dist@[m2]);
                            }
                        }
                        assert forall|m2: int, k: nat|
                            0 <= m2 < dist@.len() && k <= level && #[trigger] at_distance(gg, wv, st0, m2, k) implies dist@[m2] == Some(k as usize) by {
                            assert(od[m2] == Some(k as usize));
                        }
                        assert forall|m2: int| 0 <= m2 < n implies #[trigger] parent_ok(gg, wv, st0, dist@, parent@, m2) by {
                            if m2 == m as int {
                                assert(walk_steps(gg, wv, st0, p as int)[si as int] == st);
                                assert(step_from(gg, wv, st0, p as int, m as int, st.edge));
                            } else {
                                assert(od[m2] == dist@[m2]);
                                assert(op[m2] == parent@[m2]);
                                assert(parent_ok(gg, wv, st0, od, op, m2));
                                if dist@[m2] is Some && dist@[m2]->0 > 0 {
                                    let p2 = pred_node(parent@[m2]->0);
                                    if p2 as int == m as int {
                                        assert(od[m as int] is None);
                                    } else {
                                        assert(od[p2 as int] == dist@[p2 as int]);
                                    }
                                }
                            }
                        }
                        assert forall|a: int, b: int| 0 <= a < b < next@.len() implies next@[a] != next@[b] by {
                            if b == next@.len() - 1 {
                                assert(od[on[a] as int] == Some((level + 1) as usize));
                            }
                        }
                        assert forall|m2: int| 0 <= m2 < n && #[trigger] dist@[m2] == Some((level + 1) as usize) implies next@.contains(m2 as usize) by {
                            if m2 == m as int {
                                assert(next@[next@.len() - 1] == m);
                            } else {
                                assert(on.contains(m2 as usize));
                                let j = choose|j: int| 0 <= j < on.len() && on[j] == m2 as usize;
                                assert(next@[j] == on[j]);
                            }
                        }
                        assert forall|m2: int| 0 <= m2 < n && #[trigger] dist@[m2] == Some(level) implies frontier@.contains(m2 as usize) by {
                            assert(od[m2] == dist@[m2]);
                        }
                        assert forall|j: int| 0 <= j < frontier@.len() implies (#[trigger] frontier@[j]) < n && dist@[frontier@[j] as int] == Some(level) by {
                            assert(od[frontier@[j] as int] == Some(level));
                        }
                        assert forall|j: int| 0 <= j < next@.len() implies (#[trigger] next@[j]) < n && dist@[next@[j] as int] == Some((level + 1) as usize) by {
                            if j < on.len() {
                                assert(next@[j] == on[j]);
                            }
                        }
                        assert forall|q: int, j: int|
                            0 <= q < fi && 0 <= j < walk_steps(gg, wv, st0, frontier@[q] as int).len()
                                implies #[trigger] dist@[walk_steps(gg, wv, st0, frontier@[q] as int)[j].other as int] is Some by {
                            let o = walk_steps(gg, wv, st0, frontier@[q] as int)[j].other as int;
                            lemma_walk_steps_bounds(gg, wv, st0, frontier@[q] as int);
                            if o != m as int {
                                assert(od[o] is Some);
                            }
                        }
                        assert forall|j: int| 0 <= j < si + 1 implies #[trigger] dist@[steps@[j].other as int] is Some by {
                            let o = steps@[j].other as int;
                            if o != m as int && j < si {
                                assert(od[o] is Some);
                            }
                        }
                    }
                }
                si = si + 1;
            }
            proof {
                assert forall|q: int, j: int|
                    0 <= q < fi + 1 && 0 <= j < walk_steps(gg, wv, st0, frontier@[q] as int).len()
                        implies #[trigger] dist@[walk_steps(gg, wv, st0, frontier@[q] as int)[j].other as int] is Some by {
                    if q == fi {
                        assert(steps@[j] == walk_steps(gg, wv, st0, p as int)[j]);
                        assert(dist@[steps@[j].other as int] is Some);
                    }
                }
            }
            fi = fi + 1;
        }
        proof {
            // every entity first reached at level + 1 was found from the frontier
            assert forall|m: int, k: nat|
                0 <= m < dist@.len() && k <= level + 1 && #[trigger] at_distance(gg, wv, st0, m, k) implies dist@[m] == Some(k as usize) by {
                if k == level + 1 {
                    let prev = within(gg, wv, st0, level as nat);
                    assert(!prev.contains(m));
                    let pp = choose|pp: int| prev.contains(pp) && adjacent(gg, wv, st0, pp, m);
                    lemma_within_range(gg, wv, st0, level as nat);
                    lemma_first_layer(gg, wv, st0, pp, level as nat);
                    let kk = choose|kk: nat| kk <= level && at_distance(gg, wv, st0, pp, kk);
                    if kk < level {
                        lemma_within_mono(gg, wv, st0, kk, (level - 1) as nat);
                        assert(within(gg, wv, st0, (level - 1) as nat).contains(pp));
                        assert(within(gg, wv, st0, level as nat).contains(m));
                    } else {
                        assert(dist@[pp] == Some(level));
                        assert(frontier@.contains(pp as usize));
                        let q = choose|q: int| 0 <= q < frontier@.len() && frontier@[q] == pp as usize;
                        let j = choose|j: int| 0 <= j < walk_steps(gg, wv, st0, pp).len() && (#[trigger] walk_steps(gg, wv, st0, pp)[j]).other == m;
                        assert(dist@[walk_steps(gg, wv, st0, frontier@[q] as int)[j].other as int] is Some);
                        assert(dist_sound(gg, wv, st0, dist@, m, (level + 1) as nat));
                        let d = dist@[m]->0;
                        lemma_distance_unique(gg, wv, st0, m, d as nat, k);
                    }
                }
            }
        }
        let ghost old_level = level;
        frontier = next;
        level = level + 1;
        proof {
            assert forall|m: int| 0 <= m < n implies #[trigger] dist_sound(gg, wv, st0, dist@, m, level as nat) by {
                assert(dist_sound(gg, wv, st0, dist@, m, (old_level + 1) as nat));
            }
        }
    }
    proof {
        // finished: either the depth is reached, or a layer came up empty
        if level < depth {
            assert(frontier@.len() == 0);
            if level == 0 {
                assert(dist_complete(gg, wv, st0, dist@, 0));
                assert(dist@[st0] == Some(0usize));
                assert(frontier@.contains(start));
            }
            lemma_within_range(gg, wv, st0, level as nat);
            assert forall|m: int| #[trigger] within(gg, wv, st0, level as nat).contains(m)
                implies within(gg, wv, st0, (level - 1) as nat).contains(m) by {
                if !within(gg, wv, st0, (level - 1) as nat).contains(m) {
                    assert(at_distance(gg, wv, st0, m, level as nat));
                    assert(dist@[m] == Some(level));
                    assert(frontier@.contains(m as usize));
                }
            }
            lemma_within_mono(gg, wv, st0, (level - 1) as nat, level as nat);
            assert(within(gg, wv, st0, level as nat) =~= within(gg, wv, st0, (level - 1) as nat));
            assert forall|m: int, k: nat|
                0 <= m < dist@.len() && k <= depth && #[trigger] at_distance(gg, wv, st0, m, k) implies dist@[m] == Some(k as usize) by {
                if k > level {
                    lemma_within_stable(gg, wv, st0, level as nat, k);
                    lemma_within_stable(gg, wv, st0, level as nat, (k - 1) as nat);
                }
            }
        }
        assert forall|m: int| 0 <= m < n implies #[trigger] dist_sound(gg, wv, st0, dist@, m, depth as nat) by {
            assert(dist_sound(gg, wv, st0, dist@, m, level as nat));
        }
        assert forall|m: int| 0 <= m < n implies ((#[trigger] dist@[m]) is None <==> !within(gg, wv, st0, depth as nat).contains(m)) by {
            if within(gg, wv, st0, depth as nat).contains(m) {
                lemma_first_layer(gg, wv, st0, m, depth as nat);
                let k = choose|k: nat| k <= depth && at_distance(gg, wv, st0, m, k);
                assert(dist@[m] == Some(k as usize));
            }
            if dist@[m] is Some {
                assert(dist_sound(gg, wv, st0, dist@, m, depth as nat));
                let k = dist@[m]->0;
                lemma_within_mono(gg, wv, st0, k as nat, depth as nat);
            }
        }
    }
    Reached { dist, parent }
}

} // verus!