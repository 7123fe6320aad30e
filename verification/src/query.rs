//! The query tools: search, get, neighbors, trace, impact, architecture and
//! schema. Each returns a plain result value; rendering it as JSON or text is
//! left to the caller.

use vstd::prelude::*;
use crate::bfs::{adjacent, admits, at_distance, dist_sound, lemma_within_mono, reached_ok, walk, walk_steps, within, Walk, WalkV};
use crate::graph::{
    edges_in_range, hop_end, is_symmetric_in, lemma_step_back, lemma_steps_distinct, lemma_steps_ends,
    undirected_steps, EdgeV, Graph, Step, last_index,
};
use crate::model::{canonical, EntityRef};
use crate::sort::{
    tally, tally_ok, push_text, empty_key,
    insert_key, strictly_sorted, KeyPart,
    entry_lt, is_permutation_of_range, is_stably_sorted, key_lt, key_view, keys_view, num_key,
    sort_indices, sorted_positions, KeyPartV, SortKey,
};
use crate::text::{contains_str, contains_text, lowercase_of, starts_with, starts_with_str, str_eq, to_lowercase};
use crate::vault::entities_view;

verus! {

// ───────────────────────────── paths ─────────────────────────────

/// The entity reached after the first `i` hops of `p`, starting at `s`.
pub open spec fn node_at(ev: Seq<EdgeV>, s: int, p: Seq<(usize, bool)>, i: int) -> int {
    if i == 0 {
        s
    } else {
        hop_end(ev, p[i - 1].0, p[i - 1].1)
    }
}

/// An undirected step from `from` takes edge `h.0` in direction `h.1`.
pub open spec fn hop_from(ev: Seq<EdgeV>, from: int, h: (usize, bool)) -> bool {
    exists|j: int|
        0 <= j < undirected_steps(ev, from).len() && (#[trigger] undirected_steps(ev, from)[j]).edge
            == h.0 && undirected_steps(ev, from)[j].forward == h.1
}

/// `p` walks from `s` to `end` over undirected steps, never visiting an
/// entity twice.
pub open spec fn simple_walk(ev: Seq<EdgeV>, s: int, end: int, p: Seq<(usize, bool)>) -> bool {
    &&& forall|i: int| 0 <= i < p.len() ==> hop_from(ev, node_at(ev, s, p, i), #[trigger] p[i])
    &&& node_at(ev, s, p, p.len() as int) == end
    &&& forall|i: int, j: int|
        0 <= i < j <= p.len() ==> #[trigger] node_at(ev, s, p, i) != #[trigger] node_at(ev, s, p, j)
}

proof fn lemma_node_at_push(ev: Seq<EdgeV>, s: int, p: Seq<(usize, bool)>, h: (usize, bool))
    ensures
        forall|i: int| 0 <= i <= p.len() ==> #[trigger] node_at(ev, s, p.push(h), i) == node_at(ev, s, p, i),
        node_at(ev, s, p.push(h), (p.len() + 1) as int) == hop_end(ev, h.0, h.1),
{
    assert forall|i: int| 0 <= i <= p.len() implies #[trigger] node_at(ev, s, p.push(h), i) == node_at(
        ev,
        s,
        p,
        i,
    ) by {
        if i > 0 {
            assert(p.push(h)[i - 1] == p[i - 1]);
        }
    }
    assert(p.push(h)[p.len() as int] == h);
}

proof fn lemma_walk_in_range(ev: Seq<EdgeV>, s: int, p: Seq<(usize, bool)>, n: int)
    requires
        edges_in_range(ev, n),
        ev.len() <= usize::MAX,
        n <= usize::MAX,
        0 <= s < n,
        forall|i: int| 0 <= i < p.len() ==> hop_from(ev, node_at(ev, s, p, i), #[trigger] p[i]),
    ensures
        forall|i: int| 0 <= i <= p.len() ==> 0 <= #[trigger] node_at(ev, s, p, i) < n,
{
    assert forall|i: int| 0 <= i <= p.len() implies 0 <= #[trigger] node_at(ev, s, p, i) < n by {
        if i > 0 {
            let from = node_at(ev, s, p, i - 1);
            assert(hop_from(ev, from, p[i - 1]));
            lemma_steps_ends(ev, from, n);
            let j = choose|j: int|
                0 <= j < undirected_steps(ev, from).len() && (#[trigger] undirected_steps(ev, from)[j]).edge
                    == p[i - 1].0 && undirected_steps(ev, from)[j].forward == p[i - 1].1;
            assert(undirected_steps(ev, from)[j].edge < ev.len());
        }
    }
}

/// Facts a path search relies on: edges in range, and a distance of zero
/// only at the target.
pub open spec fn search_ready(g: Graph, t: int, dist: Seq<Option<usize>>) -> bool {
    let ev = g.edges_spec();
    let n = g.vault_spec().entities@.len();
    &&& edges_in_range(ev, n as int)
    &&& ev.len() <= usize::MAX
    &&& n <= usize::MAX
    &&& 0 <= t < n
    &&& dist.len() == n
    &&& forall|m: int| 0 <= m < n && #[trigger] dist[m] == Some(0usize) ==> m == t
}

/// Every path found so far is a simple walk from `s` to `t` of at most `max_len` hops.
pub open spec fn paths_ok(ev: Seq<EdgeV>, s: int, t: int, max_len: nat, paths: Seq<Vec<(usize, bool)>>) -> bool {
    forall|k: int|
        0 <= k < paths.len() ==> simple_walk(ev, s, t, (#[trigger] paths[k])@) && paths[k]@.len()
            <= max_len
}

fn copy_hops(v: &Vec<(usize, bool)>) -> (r: Vec<(usize, bool)>)
    ensures
        r@ == v@,
{
    let mut r: Vec<(usize, bool)> = Vec::new();
    let mut i: usize = 0;
    while i < v.len()
        invariant
            i <= v.len(),
            r@ == v@.take(i as int),
        decreases v.len() - i,
    {
        r.push(v[i]);
        i = i + 1;
        assert(r@ =~= v@.take(i as int));
    }
    assert(v@.take(v@.len() as int) =~= v@);
    r
}

/// How many entities a path search may visit before it stops.
pub const VISIT_BUDGET: usize = 20000;

/// The walk over every undirected step, of any relation type, to any kind.
pub open spec fn plain_walk() -> WalkV {
    WalkV::Undirected { kinds: Seq::empty(), relations: Seq::empty() }
}

/// The hop a step takes.
pub open spec fn step_hop(st: Step) -> (usize, bool) {
    (st.edge, st.forward)
}

/// `p` starts with the hops of `prefix`.
pub open spec fn extends(p: Seq<(usize, bool)>, prefix: Seq<(usize, bool)>) -> bool {
    prefix.len() <= p.len() && p.take(prefix.len() as int) == prefix
}

/// The paths found from position `lo` on are pairwise different walks.
pub open spec fn distinct_from(paths: Seq<Vec<(usize, bool)>>, lo: int) -> bool {
    forall|i: int, j: int| lo <= i < j < paths.len() ==> (#[trigger] paths[i])@ != (#[trigger] paths[j])@
}

/// `p` is one of the paths found.
pub open spec fn listed(paths: Seq<Vec<(usize, bool)>>, p: Seq<(usize, bool)>) -> bool {
    exists|k: int| 0 <= k < paths.len() && (#[trigger] paths[k])@ == p
}

/// Every simple walk from `s` to `t` of at most `max_len` hops that begins
/// with `prefix` is among the paths found.
pub open spec fn covered(
    ev: Seq<EdgeV>,
    s: int,
    t: int,
    max_len: nat,
    paths: Seq<Vec<(usize, bool)>>,
    prefix: Seq<(usize, bool)>,
) -> bool {
    forall|p: Seq<(usize, bool)>|
        #[trigger] extends(p, prefix) && simple_walk(ev, s, t, p) && p.len() <= max_len ==> listed(paths, p)
}

/// The path search goes on past the `i`-th entity of `p`: it is not `t`,
/// and `t` is within as many plain steps of it as hops are left (and no
/// farther than there are entities).
pub open spec fn goes_on(g: Graph, s: int, t: int, max_len: nat, p: Seq<(usize, bool)>, i: int) -> bool {
    let m = node_at(g.edges_spec(), s, p, i);
    &&& m != t
    &&& exists|k: nat|
        k <= g.vault_spec().entities@.len() && i + k <= max_len && #[trigger] within(g, plain_walk(), t, k).contains(m)
}

/// The walks the path search from `s` to `t` visits: simple walks of at
/// most `max_len` hops, from an `s` that reaches `t` at all, along which it
/// went on at every entity before the last.
pub open spec fn search_walks(g: Graph, s: int, t: int, max_len: nat) -> Set<Seq<(usize, bool)>> {
    let ev = g.edges_spec();
    Set::new(
        |p: Seq<(usize, bool)>|
            simple_walk(ev, s, node_at(ev, s, p, p.len() as int), p) && p.len() <= max_len && within(
                g,
                plain_walk(),
                t,
                g.vault_spec().entities@.len() as nat,
            ).contains(s) && forall|i: int| 0 <= i < p.len() ==> #[trigger] goes_on(g, s, t, max_len, p, i),
    )
}

/// Each recorded distance to `t` is a true one, within the entity count.
pub open spec fn dist_exact(g: Graph, t: int, dist: Seq<Option<usize>>) -> bool {
    forall|m: int|
        0 <= m < dist.len() && #[trigger] dist[m] is Some ==> dist[m]->0 <= g.vault_spec().entities@.len() && within(
            g,
            plain_walk(),
            t,
            dist[m]->0 as nat,
        ).contains(m)
}

/// Recorded distances to `t` bound the length of every way there.
pub open spec fn dist_bounds(g: Graph, t: int, dist: Seq<Option<usize>>) -> bool {
    forall|m: int, k: nat|
        0 <= m < dist.len() && k < dist.len() && #[trigger] within(g, plain_walk(), t, k).contains(m) ==> dist[m] is Some
            && dist[m]->0 <= k
}

/// Along a prefix, a walk visits the prefix's entities.
proof fn lemma_node_at_prefix(ev: Seq<EdgeV>, s: int, p: Seq<(usize, bool)>, q: Seq<(usize, bool)>, i: int)
    requires
        extends(p, q),
        0 <= i <= q.len(),
    ensures
        node_at(ev, s, p, i) == node_at(ev, s, q, i),
{
    if i > 0 {
        assert(p.take(q.len() as int)[i - 1] == p[i - 1]);
    }
}

/// Taking a hop back: the plain walk reaches `a` in one step from where
/// the hop lands.
proof fn lemma_hop_adjacent(g: Graph, t: int, a: int, h: (usize, bool))
    requires
        edges_in_range(g.edges_spec(), g.vault_spec().entities@.len() as int),
        g.edges_spec().len() <= usize::MAX,
        g.vault_spec().entities@.len() <= usize::MAX,
        hop_from(g.edges_spec(), a, h),
    ensures
        adjacent(g, plain_walk(), t, hop_end(g.edges_spec(), h.0, h.1), a),
{
    let ev = g.edges_spec();
    let n = g.vault_spec().entities@.len() as int;
    let j = choose|j: int|
        0 <= j < undirected_steps(ev, a).len() && (#[trigger] undirected_steps(ev, a)[j]).edge == h.0
            && undirected_steps(ev, a)[j].forward == h.1;
    lemma_steps_ends(ev, a, n);
    lemma_step_back(ev, a, j, n);
    let b = undirected_steps(ev, a)[j].other as int;
    let base = undirected_steps(ev, b);
    let k = choose|k: int|
        0 <= k < base.len() && (#[trigger] base[k]).edge == undirected_steps(ev, a)[j].edge && base[k].forward
            == !undirected_steps(ev, a)[j].forward && base[k].other as int == a;
    let pred = |st: Step| admits(g, plain_walk(), t, st);
    assert(pred(base[k]));
    base.lemma_filter_contains(pred, k);
    let f = walk_steps(g, plain_walk(), t, b);
    assert(f == base.filter(pred));
    let q = choose|q: int| 0 <= q < f.len() && f[q] == base[k];
    assert(f[q].other == a);
}

/// Along a walk that ends at `t`, each entity is within as many plain
/// steps of `t` as hops remain.
proof fn lemma_rest_within(g: Graph, s: int, t: int, p: Seq<(usize, bool)>, i: int)
    requires
        edges_in_range(g.edges_spec(), g.vault_spec().entities@.len() as int),
        g.edges_spec().len() <= usize::MAX,
        g.vault_spec().entities@.len() <= usize::MAX,
        forall|q: int| 0 <= q < p.len() ==> hop_from(g.edges_spec(), node_at(g.edges_spec(), s, p, q), #[trigger] p[q]),
        node_at(g.edges_spec(), s, p, p.len() as int) == t,
        0 <= i <= p.len(),
    ensures
        within(g, plain_walk(), t, (p.len() - i) as nat).contains(node_at(g.edges_spec(), s, p, i)),
    decreases p.len() - i,
{
    let ev = g.edges_spec();
    if i < p.len() {
        lemma_rest_within(g, s, t, p, i + 1);
        assert(hop_from(ev, node_at(ev, s, p, i), p[i]));
        lemma_hop_adjacent(g, t, node_at(ev, s, p, i), p[i]);
        assert(node_at(ev, s, p, i + 1) == hop_end(ev, p[i].0, p[i].1));
        let k = (p.len() - i) as nat;
        let prev = within(g, plain_walk(), t, (k - 1) as nat);
        assert(prev.contains(node_at(ev, s, p, i + 1)));
        assert(within(g, plain_walk(), t, k) == prev.union(
            Set::new(|m: int| exists|n: int| prev.contains(n) && adjacent(g, plain_walk(), t, n, m)),
        ));
    }
}

/// A simple walk visits distinct entities, so it has fewer hops than there
/// are entities.
proof fn lemma_simple_walk_short(ev: Seq<EdgeV>, s: int, end: int, p: Seq<(usize, bool)>, n: int)
    requires
        simple_walk(ev, s, end, p),
        edges_in_range(ev, n),
        ev.len() <= usize::MAX,
        n <= usize::MAX,
        0 <= s < n,
    ensures
        p.len() < n,
{
    lemma_walk_in_range(ev, s, p, n);
    let nodes = Seq::new((p.len() + 1) as nat, |i: int| node_at(ev, s, p, i));
    assert(nodes.no_duplicates()) by {
        assert forall|i: int, j: int| 0 <= i < nodes.len() && 0 <= j < nodes.len() && i != j implies nodes[i]
            != nodes[j] by {
            if i < j {
                assert(node_at(ev, s, p, i) != node_at(ev, s, p, j));
            } else {
                assert(node_at(ev, s, p, j) != node_at(ev, s, p, i));
            }
        }
    }
    nodes.unique_seq_to_set();
    vstd::set_lib::lemma_int_range(0, n);
    let range = vstd::set_lib::set_int_range(0, n);
    assert(nodes.to_set().subset_of(range)) by {
        assert forall|x: int| nodes.to_set().contains(x) implies range.contains(x) by {
            let i = choose|i: int| 0 <= i < nodes.len() && nodes[i] == x;
            assert(0 <= node_at(ev, s, p, i) < n);
        }
    }
    vstd::set_lib::lemma_len_subset(nodes.to_set(), range);
}

/// No simple walk from `s` to `t` of at most `max_len` hops goes on from
/// `stack` once the distance left to `t` exceeds the hops left.
proof fn lemma_no_way_on(
    g: Graph,
    s: int,
    t: int,
    max_len: nat,
    dist: Seq<Option<usize>>,
    stack: Seq<(usize, bool)>,
    node: int,
    p: Seq<(usize, bool)>,
)
    requires
        search_ready(g, t, dist),
        dist_bounds(g, t, dist),
        0 <= s < g.vault_spec().entities@.len(),
        simple_walk(g.edges_spec(), s, node, stack),
        extends(p, stack),
        simple_walk(g.edges_spec(), s, t, p),
        p.len() <= max_len,
    ensures
        dist[node] is Some && dist[node]->0 + stack.len() <= max_len,
{
    let ev = g.edges_spec();
    let n = g.vault_spec().entities@.len() as int;
    let k = (p.len() - stack.len()) as nat;
    assert(k < n) by {
        lemma_simple_walk_short(ev, s, t, p, n);
    }
    assert(0 <= node < n) by {
        lemma_walk_in_range(ev, s, stack, n);
    }
    assert(within(g, plain_walk(), t, k).contains(node)) by {
        lemma_rest_within(g, s, t, p, stack.len() as int);
        lemma_node_at_prefix(ev, s, p, stack, stack.len() as int);
    }
    assert(dist.len() == n);
}

/// What was found stays found as more paths are added.
proof fn lemma_covered_grows(
    ev: Seq<EdgeV>,
    s: int,
    t: int,
    max_len: nat,
    a: Seq<Vec<(usize, bool)>>,
    b: Seq<Vec<(usize, bool)>>,
    prefix: Seq<(usize, bool)>,
)
    requires
        covered(ev, s, t, max_len, a, prefix),
        a.len() <= b.len(),
        forall|q: int| 0 <= q < a.len() ==> #[trigger] b[q] == a[q],
    ensures
        covered(ev, s, t, max_len, b, prefix),
{
    assert forall|p: Seq<(usize, bool)>|
        #[trigger] extends(p, prefix) && simple_walk(ev, s, t, p) && p.len() <= max_len implies listed(b, p) by {
        let k = choose|k: int| 0 <= k < a.len() && (#[trigger] a[k])@ == p;
        assert(b[k] == a[k]);
    }
}

/// Depth-first search for simple paths to `t`, extending the walk `stack`
/// that reached `node`; entities on the walk are marked in `on_path`.
/// A walk is cut where even the shortest way on to `t` would exceed
/// `max_len`, and the search stops when `budget` visits are spent. Unless
/// they were all spent, every simple walk to `t` that goes on from `stack`
/// within `max_len` hops is found. The walks visited, one per unit of
/// budget spent, are returned.
#[verifier::rlimit(80)]
fn search_paths(
    g: &Graph,
    node: usize,
    t: usize,
    max_len: usize,
    dist: &Vec<Option<usize>>,
    stack: &mut Vec<(usize, bool)>,
    on_path: &mut Vec<bool>,
    paths: &mut Vec<Vec<(usize, bool)>>,
    budget: &mut usize,
    Ghost(s): Ghost<int>,
) -> (visited: Ghost<Set<Seq<(usize, bool)>>>)
    requires
        search_ready(*g, t as int, dist@),
        dist_bounds(*g, t as int, dist@),
        dist_exact(*g, t as int, dist@),
        within(*g, plain_walk(), t as int, g.vault_spec().entities@.len() as nat).contains(s),
        forall|i: int| 0 <= i < old(stack)@.len() ==> #[trigger] goes_on(*g, s, t as int, max_len as nat, old(stack)@, i),
        node < g.vault_spec().entities@.len(),
        0 <= s < g.vault_spec().entities@.len(),
        old(on_path)@.len() == g.vault_spec().entities@.len(),
        simple_walk(g.edges_spec(), s, node as int, old(stack)@),
        old(stack)@.len() <= max_len,
        forall|m: int|
            0 <= m < old(on_path)@.len() ==> (#[trigger] old(on_path)@[m] <==> exists|i: int|
                0 <= i < old(stack)@.len() && node_at(g.edges_spec(), s, old(stack)@, i) == m),
        paths_ok(g.edges_spec(), s, t as int, max_len as nat, old(paths)@),
    ensures
        final(stack)@ == old(stack)@,
        final(on_path)@ == old(on_path)@,
        *final(budget) <= *old(budget),
        paths_ok(g.edges_spec(), s, t as int, max_len as nat, final(paths)@),
        old(paths)@.len() <= final(paths)@.len(),
        forall|q: int| 0 <= q < old(paths)@.len() ==> #[trigger] final(paths)@[q] == old(paths)@[q],
        *final(budget) > 0 ==> covered(g.edges_spec(), s, t as int, max_len as nat, final(paths)@, old(stack)@),
        visited@.finite(),
        *old(budget) - *final(budget) == visited@.len(),
        forall|p: Seq<(usize, bool)>|
            #[trigger] visited@.contains(p) ==> extends(p, old(stack)@) && search_walks(
                *g,
                s,
                t as int,
                max_len as nat,
            ).contains(p),
        forall|q: int|
            old(paths)@.len() <= q < final(paths)@.len() ==> visited@.contains((#[trigger] final(paths)@[q])@),
        distinct_from(final(paths)@, old(paths)@.len() as int),
    decreases *old(budget),
{
    let ghost ev = g.edges_spec();
    let ghost n = g.vault_spec().entities@.len();
    let ghost ml = max_len as nat;
    let ghost st0 = stack@;
    if *budget == 0 {
        return Ghost(Set::empty());
    }
    *budget = *budget - 1;
    let ghost me: Set<Seq<(usize, bool)>> = Set::empty().insert(st0);
    proof {
        assert(st0.take(st0.len() as int) =~= st0);
        assert(search_walks(*g, s, t as int, ml).contains(st0));
    }
    if node == t {
        let found = copy_hops(stack);
        paths.push(found);
        proof {
            assert forall|k: int| 0 <= k < paths@.len() implies simple_walk(ev, s, t as int, (
            #[trigger] paths@[k])@) && paths@[k]@.len() <= max_len by {
                if k < paths@.len() - 1 {
                    assert(paths@[k] == old(paths)@[k]);
                }
            }
            assert forall|p: Seq<(usize, bool)>|
                #[trigger] extends(p, st0) && simple_walk(ev, s, t as int, p) && p.len() <= ml implies listed(
                paths@,
                p,
            ) by {
                if p.len() > st0.len() {
                    lemma_node_at_prefix(ev, s, p, st0, st0.len() as int);
                    assert(node_at(ev, s, p, st0.len() as int) != node_at(ev, s, p, p.len() as int));
                }
                assert(p =~= st0);
                assert(paths@[paths@.len() - 1]@ == p);
            }
        }
        return Ghost(me);
    }
    let d = match dist[node] {
        Some(d) => d,
        None => {
            proof {
                assert forall|p: Seq<(usize, bool)>|
                    #[trigger] extends(p, st0) && simple_walk(ev, s, t as int, p) && p.len() <= ml implies listed(
                    paths@,
                    p,
                ) by {
                    lemma_no_way_on(*g, s, t as int, ml, dist@, st0, node as int, p);
                }
            }
            return Ghost(me);
        },
    };
    if d > max_len - stack.len() {
        proof {
            assert forall|p: Seq<(usize, bool)>|
                #[trigger] extends(p, st0) && simple_walk(ev, s, t as int, p) && p.len() <= ml implies listed(
                paths@,
                p,
            ) by {
                lemma_no_way_on(*g, s, t as int, ml, dist@, st0, node as int, p);
            }
        }
        return Ghost(me);
    }
    proof {
        assert(d != 0);
        assert(node_at(ev, s, st0, st0.len() as int) == node as int);
        assert(dist@[node as int] is Some);
        assert(within(*g, plain_walk(), t as int, d as nat).contains(node as int));
        assert(goes_on(*g, s, t as int, ml, st0, st0.len() as int));
    }
    on_path.set(node, true);
    let steps = g.undirected(node);
    proof {
        lemma_steps_ends(ev, node as int, n as int);
        lemma_steps_distinct(ev, node as int, n as int);
    }
    let ghost mut acc: Set<Seq<(usize, bool)>> = me;
    let ghost p0 = paths@;
    let mut k: usize = 0;
    while k < steps.len()
        invariant
            search_ready(*g, t as int, dist@),
            dist_bounds(*g, t as int, dist@),
            dist_exact(*g, t as int, dist@),
            within(*g, plain_walk(), t as int, n as nat).contains(s),
            forall|i: int| 0 <= i < st0.len() ==> #[trigger] goes_on(*g, s, t as int, ml, st0, i),
            goes_on(*g, s, t as int, ml, st0, st0.len() as int),
            ev == g.edges_spec(),
            n == g.vault_spec().entities@.len(),
            ml == max_len as nat,
            node < n,
            0 <= s < n,
            node != t,
            k <= steps.len(),
            steps@ == undirected_steps(ev, node as int),
            forall|j: int|
                0 <= j < undirected_steps(ev, node as int).len() ==> {
                    let st = #[trigger] undirected_steps(ev, node as int)[j];
                    &&& st.edge < ev.len()
                    &&& st.other as int == hop_end(ev, st.edge, st.forward)
                },
            forall|i: int, j: int|
                0 <= i < j < steps@.len() ==> (#[trigger] steps@[i]).edge != (#[trigger] steps@[j]).edge
                    || steps@[i].forward != steps@[j].forward,
            stack@ == st0,
            st0 == old(stack)@,
            simple_walk(ev, s, node as int, stack@),
            stack@.len() < max_len,
            on_path@ == old(on_path)@.update(node as int, true),
            on_path@.len() == n,
            forall|m: int|
                0 <= m < on_path@.len() ==> (#[trigger] on_path@[m] <==> exists|i: int|
                    0 <= i <= stack@.len() && node_at(ev, s, stack@, i) == m),
            *budget < *old(budget),
            paths_ok(ev, s, t as int, max_len as nat, paths@),
            p0 == old(paths)@,
            p0.len() <= paths@.len(),
            forall|q: int| 0 <= q < p0.len() ==> #[trigger] paths@[q] == p0[q],
            *budget > 0 ==> forall|j: int|
                0 <= j < k ==> covered(ev, s, t as int, ml, paths@, st0.push(step_hop(#[trigger] steps@[j]))),
            acc.finite(),
            *old(budget) - *budget == acc.len(),
            forall|p: Seq<(usize, bool)>|
                #[trigger] acc.contains(p) ==> extends(p, st0) && search_walks(*g, s, t as int, ml).contains(p),
            forall|p: Seq<(usize, bool)>, j: int|
                #![trigger acc.contains(p), steps@[j]]
                acc.contains(p) && k <= j < steps@.len() ==> !extends(p, st0.push(step_hop(steps@[j]))),
            forall|q: int| p0.len() <= q < paths@.len() ==> acc.contains((#[trigger] paths@[q])@),
            distinct_from(paths@, p0.len() as int),
        decreases steps.len() - k,
    {
        let st = steps[k];
        proof {
            assert(st == undirected_steps(ev, node as int)[k as int]);
        }
        let ghost h = step_hop(st);
        let ghost pushed = st0.push(h);
        if !on_path[st.other] {
            let ghost before = stack@;
            let ghost pb = paths@;
            let ghost b1 = *budget;
            stack.push((st.edge, st.forward));
            proof {
                lemma_node_at_push(ev, s, before, h);
                lemma_walk_in_range(ev, s, before, n as int);
                let p = stack@;
                assert(p == before.push(h));
                assert forall|i: int| 0 <= i < p.len() implies hop_from(
                    ev,
                    node_at(ev, s, p, i),
                    #[trigger] p[i],
                ) by {
                    if i < before.len() {
                        assert(p[i] == before[i]);
                    } else {
                        assert(p[i] == h);
                        assert(node_at(ev, s, p, i) == node_at(ev, s, before, i));
                        assert(undirected_steps(ev, node as int)[k as int] == st);
                    }
                }
                assert forall|i: int, j: int| 0 <= i < j <= p.len() implies #[trigger] node_at(
                    ev,
                    s,
                    p,
                    i,
                ) != #[trigger] node_at(ev, s, p, j) by {
                    if j <= before.len() {
                        assert(node_at(ev, s, p, i) == node_at(ev, s, before, i));
                        assert(node_at(ev, s, p, j) == node_at(ev, s, before, j));
                    } else {
                        assert(node_at(ev, s, p, i) == node_at(ev, s, before, i));
                        assert(on_path@[node_at(ev, s, before, i)]);
                    }
                }
                assert forall|i: int| 0 <= i < p.len() implies #[trigger] goes_on(*g, s, t as int, ml, p, i) by {
                    assert(node_at(ev, s, p, i) == node_at(ev, s, before, i));
                    if i < before.len() {
                        assert(goes_on(*g, s, t as int, ml, before, i));
                    }
                }
                assert forall|m: int| 0 <= m < on_path@.len() implies (#[trigger] on_path@[m]
                    <==> exists|i: int| 0 <= i < p.len() && node_at(ev, s, p, i) == m) by {
                    if on_path@[m] {
                        let i = choose|i: int| 0 <= i <= before.len() && node_at(ev, s, before, i) == m;
                        assert(node_at(ev, s, p, i) == m);
                    }
                    if exists|i: int| 0 <= i < p.len() && node_at(ev, s, p, i) == m {
                        let i = choose|i: int| 0 <= i < p.len() && node_at(ev, s, p, i) == m;
                        assert(node_at(ev, s, before, i) == m);
                    }
                }
            }
            let sub = search_paths(g, st.other, t, max_len, dist, stack, on_path, paths, budget, Ghost(s));
            stack.pop();
            proof {
                assert(stack@ =~= before);
                let v = sub@;
                assert(pushed == before.push(h));
                assert(acc.disjoint(v)) by {
                    assert forall|p: Seq<(usize, bool)>| acc.contains(p) implies !v.contains(p) by {
                        assert(!extends(p, st0.push(step_hop(steps@[k as int]))));
                    }
                }
                vstd::set_lib::lemma_set_disjoint_lens(acc, v);
                let acc2 = acc.union(v);
                assert forall|q: int| p0.len() <= q < paths@.len() implies acc2.contains((#[trigger] paths@[q])@) by {
                    if q < pb.len() {
                        assert(paths@[q] == pb[q]);
                    }
                }
                assert forall|i: int, j: int| p0.len() <= i < j < paths@.len() implies (#[trigger] paths@[i])@
                    != (#[trigger] paths@[j])@ by {
                    if j < pb.len() {
                        assert(paths@[i] == pb[i]);
                        assert(paths@[j] == pb[j]);
                    } else if i < pb.len() {
                        assert(paths@[i] == pb[i]);
                        assert(acc.contains(pb[i]@));
                        assert(v.contains(paths@[j]@));
                    }
                }
                assert forall|p: Seq<(usize, bool)>, j: int|
                    #![trigger acc2.contains(p), steps@[j]]
                    acc2.contains(p) && k + 1 <= j < steps@.len() implies !extends(p, st0.push(step_hop(steps@[j]))) by {
                    if v.contains(p) && extends(p, st0.push(step_hop(steps@[j]))) {
                        assert(extends(p, pushed));
                        assert(p[st0.len() as int] == p.take((st0.len() + 1) as int)[st0.len() as int]);
                        assert(pushed[st0.len() as int] == h);
                        assert(st0.push(step_hop(steps@[j]))[st0.len() as int] == step_hop(steps@[j]));
                        assert(steps@[k as int] == st);
                    }
                }
                assert forall|p: Seq<(usize, bool)>| #[trigger] acc2.contains(p) implies extends(p, st0) && search_walks(
                    *g,
                    s,
                    t as int,
                    ml,
                ).contains(p) by {
                    if v.contains(p) {
                        assert(extends(p, pushed));
                        assert(p.take(st0.len() as int) =~= p.take((st0.len() + 1) as int).take(st0.len() as int));
                        assert(pushed.take(st0.len() as int) =~= st0);
                    }
                }
                if *budget > 0 {
                    assert forall|j: int| 0 <= j < k + 1 implies covered(
                        ev,
                        s,
                        t as int,
                        ml,
                        paths@,
                        st0.push(step_hop(#[trigger] steps@[j])),
                    ) by {
                        if j < k {
                            lemma_covered_grows(ev, s, t as int, ml, pb, paths@, st0.push(step_hop(steps@[j])));
                        } else {
                            assert(steps@[j] == st);
                        }
                    }
                }
                acc = acc2;
            }
        } else {
            proof {
                assert(!extends(st0, pushed));
                assert forall|p: Seq<(usize, bool)>, j: int|
                    #![trigger acc.contains(p), steps@[j]]
                    acc.contains(p) && k + 1 <= j < steps@.len() implies !extends(p, st0.push(step_hop(steps@[j]))) by {
                }
                if *budget > 0 {
                    assert forall|j: int| 0 <= j < k + 1 implies covered(
                        ev,
                        s,
                        t as int,
                        ml,
                        paths@,
                        st0.push(step_hop(#[trigger] steps@[j])),
                    ) by {
                        if j == k {
                            assert(steps@[j] == st);
                            assert forall|p: Seq<(usize, bool)>|
                                #[trigger] extends(p, pushed) && simple_walk(ev, s, t as int, p) && p.len() <= ml implies listed(
                                paths@,
                                p,
                            ) by {
                                let m = st.other as int;
                                let i = choose|i: int| 0 <= i <= st0.len() && node_at(ev, s, st0, i) == m;
                                lemma_node_at_prefix(ev, s, p, pushed, i);
                                lemma_node_at_prefix(ev, s, p, pushed, (st0.len() + 1) as int);
                                lemma_node_at_push(ev, s, st0, h);
                                assert(node_at(ev, s, p, i) != node_at(ev, s, p, (st0.len() + 1) as int));
                            }
                        }
                    }
                }
            }
        }
        k = k + 1;
    }
    on_path.set(node, false);
    proof {
        assert(!old(on_path)@[node as int]) by {
            if old(on_path)@[node as int] {
                let i = choose|i: int|
                    0 <= i < old(stack)@.len() && node_at(ev, s, old(stack)@, i) == node;
                assert(node_at(ev, s, old(stack)@, old(stack)@.len() as int) == node);
            }
        }
        assert(on_path@ =~= old(on_path)@);
        if *budget > 0 {
            assert forall|p: Seq<(usize, bool)>|
                #[trigger] extends(p, st0) && simple_walk(ev, s, t as int, p) && p.len() <= ml implies listed(
                paths@,
                p,
            ) by {
                lemma_node_at_prefix(ev, s, p, st0, st0.len() as int);
                if p.len() == st0.len() {
                    assert(p =~= st0);
                } else {
                    let hp = p[st0.len() as int];
                    assert(hop_from(ev, node_at(ev, s, p, st0.len() as int), hp));
                    let j = choose|j: int|
                        0 <= j < undirected_steps(ev, node as int).len() && (#[trigger] undirected_steps(
                            ev,
                            node as int,
                        )[j]).edge == hp.0 && undirected_steps(ev, node as int)[j].forward == hp.1;
                    assert(step_hop(steps@[j]) == hp);
                    assert(p.take((st0.len() + 1) as int) =~= st0.push(hp));
                    assert(extends(p, st0.push(step_hop(steps@[j]))));
                }
            }
        }
    }
    Ghost(acc)
}


// ───────────────────────────── trace ─────────────────────────────

/// One hop of a rendered path: the relation, its direction (`->` along the
/// edge, `<-` against it, `<->` for a symmetric relation) and where it lands.
pub struct TraceHop {
    pub rel: String,
    pub direction: &'static str,
    pub to: String,
}

/// A path found by `trace`.
pub struct TracePath {
    pub length: usize,
    pub hops: Vec<TraceHop>,
}

/// The paths `trace` found between two entities.
pub struct TraceResult {
    pub from: String,
    pub to: String,
    pub paths: Vec<TracePath>,
}

pub open spec fn trace_hop_view(h: TraceHop) -> (Seq<char>, Seq<char>, Seq<char>) {
    (h.rel@, h.direction@, h.to@)
}

pub open spec fn trace_hops_view(v: Seq<TraceHop>) -> Seq<(Seq<char>, Seq<char>, Seq<char>)> {
    v.map_values(|h: TraceHop| trace_hop_view(h))
}

/// The canonical ref of entity `i`.
pub open spec fn ref_text(g: Graph, i: int) -> Seq<char> {
    canonical(g.vault_spec().entities@[i].eref@)
}

/// How a hop over edge `h.0`, taken forward when `h.1`, is rendered.
pub open spec fn hop_text(g: Graph, h: (usize, bool)) -> (Seq<char>, Seq<char>, Seq<char>) {
    let e = g.edges_spec()[h.0 as int];
    let dir = if is_symmetric_in(g.vault_spec().schema@, e.rel) {
        "<->"@
    } else if h.1 {
        "->"@
    } else {
        "<-"@
    };
    (e.rel, dir, ref_text(g, hop_end(g.edges_spec(), h.0, h.1)))
}

pub open spec fn path_text(g: Graph, p: Seq<(usize, bool)>) -> Seq<(Seq<char>, Seq<char>, Seq<char>)> {
    p.map_values(|h: (usize, bool)| hop_text(g, h))
}

/// `out` renders the walks `raw`: at most `limit` different simple walks
/// from `s` to `t`, each of at most `max_len` hops, shortest first.
pub open spec fn trace_ok(
    g: Graph,
    s: int,
    t: int,
    limit: nat,
    max_len: nat,
    raw: Seq<Seq<(usize, bool)>>,
    out: Seq<TracePath>,
) -> bool {
    &&& raw.len() == out.len()
    &&& out.len() <= limit
    &&& forall|i: int|
        0 <= i < raw.len() ==> {
            &&& simple_walk(g.edges_spec(), s, t, #[trigger] raw[i])
            &&& raw[i].len() <= max_len
            &&& out[i].length == raw[i].len()
            &&& trace_hops_view(out[i].hops@) == path_text(g, raw[i])
        }
    &&& forall|i: int, j: int| 0 <= i < j < raw.len() ==> #[trigger] raw[i].len() <= #[trigger] raw[j].len()
    &&& forall|i: int, j: int| 0 <= i < j < raw.len() ==> #[trigger] raw[i] != #[trigger] raw[j]
}

/// Render the hops of a walk from `s`.
#[verifier::spinoff_prover]
#[verifier::rlimit(30)]
fn render_hops(g: &Graph, p: &Vec<(usize, bool)>, Ghost(s): Ghost<int>, Ghost(t): Ghost<int>) -> (r: Vec<TraceHop>)
    requires
        edges_in_range(g.edges_spec(), g.vault_spec().entities@.len() as int),
        g.edges_spec().len() <= usize::MAX,
        g.vault_spec().entities@.len() <= usize::MAX,
        0 <= s < g.vault_spec().entities@.len(),
        simple_walk(g.edges_spec(), s, t, p@),
    ensures
        trace_hops_view(r@) == path_text(*g, p@),
{
    let ghost ev = g.edges_spec();
    let ghost n = g.vault_spec().entities@.len();
    let edges = g.edges();
    let mut r: Vec<TraceHop> = Vec::new();
    let mut i: usize = 0;
    while i < p.len()
        invariant
            i <= p.len(),
            ev == g.edges_spec(),
            n == g.vault_spec().entities@.len(),
            crate::graph::edges_view(edges@) == ev,
            forall|j: int| 0 <= j < edges@.len() ==> (#[trigger] edges@[j]).source < n && edges@[j].target < n,
            0 <= s < n,
            simple_walk(ev, s, t, p@),
            edges_in_range(ev, n as int),
            ev.len() <= usize::MAX,
            n <= usize::MAX,
            trace_hops_view(r@) == path_text(*g, p@.take(i as int)),
        decreases p.len() - i,
    {
        let (ei, fwd) = p[i];
        proof {
            let from = node_at(ev, s, p@, i as int);
            assert(hop_from(ev, from, p@[i as int]));
            lemma_steps_ends(ev, from, n as int);
            let j = choose|j: int|
                0 <= j < undirected_steps(ev, from).len() && (#[trigger] undirected_steps(ev, from)[j]).edge
                    == p@[i as int].0 && undirected_steps(ev, from)[j].forward == p@[i as int].1;
            assert(undirected_steps(ev, from)[j].edge < ev.len());
        }
        let e = &edges[ei];
        let direction: &'static str = if g.is_symmetric(e.rel.as_str()) {
            "<->"
        } else if fwd {
            "->"
        } else {
            "<-"
        };
        let next = if fwd {
            e.target
        } else {
            e.source
        };
        let to = g.entity(next).eref.to_string();
        r.push(TraceHop { rel: e.rel.clone(), direction, to });
        proof {
            assert(ev[ei as int] == edges@[ei as int]@);
            assert(p@.take(i + 1) =~= p@.take(i as int).push((ei, fwd)));
            assert(path_text(*g, p@.take(i + 1)) =~= path_text(*g, p@.take(i as int)).push(
                hop_text(*g, (ei, fwd)),
            ));
            assert(trace_hops_view(r@) =~= trace_hops_view(r@.drop_last()).push(
                trace_hop_view(r@.last()),
            ));
        }
        i = i + 1;
    }
    assert(p@.take(p@.len() as int) =~= p@);
    r
}

/// All simple walks from `s` to `t` that the bounded search finds.
fn find_paths(g: &Graph, s: usize, t: usize, max_len: usize) -> (paths: Vec<Vec<(usize, bool)>>)
    requires
        s < g.vault_spec().entities@.len(),
        t < g.vault_spec().entities@.len(),
    ensures
        paths_ok(g.edges_spec(), s as int, t as int, max_len as nat, paths@),
        distinct_from(paths@, 0),
        few_visits(*g, s as int, t as int, max_len as nat) ==> covered(
            g.edges_spec(),
            s as int,
            t as int,
            max_len as nat,
            paths@,
            seq![],
        ),
{
    let n = g.vault().entities.len();
    let edges = g.edges();
    let ne = edges.len();
    let w = Walk::Undirected { kinds: Vec::new(), relations: Vec::new() };
    let reached = walk(g, &w, t, n);
    proof {
        let dist = reached.dist@;
        assert forall|m: int| 0 <= m < n && #[trigger] dist[m] == Some(0usize) implies m == t by {
            assert(dist_sound(*g, w@, t as int, dist, m, n as nat));
            assert(at_distance(*g, w@, t as int, m, 0));
            assert(within(*g, w@, t as int, 0).contains(m));
        }
        assert(crate::graph::edges_view(edges@).len() == edges@.len());
        assert(search_ready(*g, t as int, dist));
        assert(w@ == plain_walk()) by {
            assert(crate::model::strs(Seq::<String>::empty()) =~= Seq::<Seq<char>>::empty());
        }
        assert forall|m: int, k: nat|
            0 <= m < dist.len() && k < dist.len() && #[trigger] within(*g, plain_walk(), t as int, k).contains(m) implies dist[m] is Some
                && dist[m]->0 <= k by {
            lemma_within_mono(*g, plain_walk(), t as int, k, n as nat);
            assert(dist_sound(*g, w@, t as int, dist, m, n as nat));
            let d = dist[m]->0;
            if d > k {
                lemma_within_mono(*g, plain_walk(), t as int, k, (d - 1) as nat);
            }
        }
        assert(dist_bounds(*g, t as int, dist));
        assert forall|m: int| 0 <= m < dist.len() && #[trigger] dist[m] is Some implies dist[m]->0 <= n && within(
            *g,
            plain_walk(),
            t as int,
            dist[m]->0 as nat,
        ).contains(m) by {
            assert(dist_sound(*g, w@, t as int, dist, m, n as nat));
        }
        assert(dist_exact(*g, t as int, dist));
    }
    let mut paths: Vec<Vec<(usize, bool)>> = Vec::new();
    let mut stack: Vec<(usize, bool)> = Vec::new();
    let mut on_path: Vec<bool> = Vec::new();
    let mut i: usize = 0;
    while i < n
        invariant
            i <= n,
            on_path@.len() == i,
            forall|j: int| 0 <= j < i ==> !(#[trigger] on_path@[j]),
        decreases n - i,
    {
        on_path.push(false);
        i = i + 1;
    }
    let mut budget: usize = VISIT_BUDGET;
    let ghost ev = g.edges_spec();
    let ghost ml = max_len as nat;
    proof {
        assert(simple_walk(ev, s as int, s as int, stack@));
    }
    if reached.dist[s].is_some() {
        proof {
            let d = reached.dist@[s as int]->0;
            assert(within(*g, plain_walk(), t as int, d as nat).contains(s as int));
            lemma_within_mono(*g, plain_walk(), t as int, d as nat, n as nat);
        }
        let visited = search_paths(g, s, t, max_len, &reached.dist, &mut stack, &mut on_path, &mut paths, &mut budget, Ghost(s as int));
        proof {
            let wf = search_walks(*g, s as int, t as int, ml);
            if few_visits(*g, s as int, t as int, ml) {
                assert(visited@.subset_of(wf));
                vstd::set_lib::lemma_len_subset(visited@, wf);
                assert(stack@ =~= seq![]);
            }
        }
    } else {
        proof {
            assert forall|p: Seq<(usize, bool)>|
                #[trigger] extends(p, seq![]) && simple_walk(ev, s as int, t as int, p) && p.len() <= ml implies listed(
                paths@,
                p,
            ) by {
                assert(extends(p, stack@));
                lemma_no_way_on(*g, s as int, t as int, ml, reached.dist@, stack@, s as int, p);
            }
        }
    }
    paths
}

/// The positions of `paths`, shortest first; equal lengths keep their order.
fn length_order(paths: &Vec<Vec<(usize, bool)>>) -> (order: Vec<usize>)
    ensures
        is_permutation_of_range(order@, paths@.len() as int),
        forall|a: int, b: int|
            0 <= a < b < order@.len() ==> paths@[#[trigger] order@[a] as int]@.len() < paths@[#[trigger] order@[b] as int]@.len()
                || (paths@[order@[a] as int]@.len() == paths@[order@[b] as int]@.len() && order@[a] < order@[b]),
{
    let mut keys: Vec<SortKey> = Vec::new();
    let mut k: usize = 0;
    while k < paths.len()
        invariant
            k <= paths.len(),
            keys@.len() == k,
            forall|j: int| 0 <= j < k ==> (#[trigger] paths@[j])@.len() <= u64::MAX,
            forall|j: int| 0 <= j < k ==> key_view(#[trigger] keys@[j]) == seq![KeyPartV::Num(paths@[j]@.len() as u64)],
        decreases paths.len() - k,
    {
        let len = paths[k].len();
        keys.push(num_key(len as u64));
        k = k + 1;
    }
    let order = sort_indices(&keys);
    proof {
        let keysv = keys_view(keys@);
        assert forall|a: int, b: int|
            0 <= a < b < order@.len() implies paths@[#[trigger] order@[a] as int]@.len() < paths@[#[trigger] order@[b] as int]@.len()
                || (paths@[order@[a] as int]@.len() == paths@[order@[b] as int]@.len() && order@[a] < order@[b]) by {
            let x = order@[a] as int;
            let y = order@[b] as int;
            assert(entry_lt(keysv, x, y));
            assert(keysv[x] == key_view(keys@[x]));
            assert(keysv[y] == key_view(keys@[y]));
            let kx = seq![KeyPartV::Num(paths@[x]@.len() as u64)];
            let ky = seq![KeyPartV::Num(paths@[y]@.len() as u64)];
            assert(kx.drop_first() =~= Seq::<KeyPartV>::empty());
            assert(ky.drop_first() =~= Seq::<KeyPartV>::empty());
            assert(paths@[x]@.len() <= u64::MAX);
            assert(paths@[y]@.len() <= u64::MAX);
            assert(keysv[x] == kx);
            assert(keysv[y] == ky);
            assert(!key_lt(Seq::<KeyPartV>::empty(), Seq::<KeyPartV>::empty()));
            if key_lt(kx, ky) {
                assert(kx[0] != ky[0]);
            }
        }
    }
    order
}

/// The path search from `s` to `t` visits fewer walks than its budget
/// allows, so it never stops early.
pub open spec fn few_visits(g: Graph, s: int, t: int, max_len: nat) -> bool {
    search_walks(g, s, t, max_len).finite() && search_walks(g, s, t, max_len).len() < VISIT_BUDGET
}

/// Every simple walk from `s` to `t` of at most `max_len` hops is among
/// `raw`, or `raw` holds `limit` walks, none of them longer.
pub open spec fn shortest_found(
    ev: Seq<EdgeV>,
    s: int,
    t: int,
    limit: nat,
    max_len: nat,
    raw: Seq<Seq<(usize, bool)>>,
) -> bool {
    forall|p: Seq<(usize, bool)>|
        #[trigger] simple_walk(ev, s, t, p) && p.len() <= max_len ==> raw.contains(p) || (raw.len() == limit
            && forall|i: int| 0 <= i < raw.len() ==> #[trigger] raw[i].len() <= p.len())
}

/// An ordering of `0..n` without repeats lists every position.
proof fn lemma_permutation_onto(r: Seq<usize>, n: int, k: int)
    requires
        is_permutation_of_range(r, n),
        0 <= k < n,
    ensures
        exists|j: int| 0 <= j < r.len() && r[j] == k,
{
    if !(exists|j: int| 0 <= j < r.len() && r[j] == k) {
        let ints = Seq::new(r.len(), |i: int| r[i] as int);
        assert(ints.no_duplicates()) by {
            assert forall|i: int, j: int| 0 <= i < ints.len() && 0 <= j < ints.len() && i != j implies ints[i]
                != ints[j] by {
                if i < j {
                    assert(r[i] != r[j]);
                } else {
                    assert(r[j] != r[i]);
                }
            }
        }
        ints.unique_seq_to_set();
        vstd::set_lib::lemma_int_range(0, n);
        let range = vstd::set_lib::set_int_range(0, n).remove(k);
        assert(ints.to_set().subset_of(range)) by {
            assert forall|x: int| ints.to_set().contains(x) implies range.contains(x) by {
                let i = choose|i: int| 0 <= i < ints.len() && ints[i] == x;
                assert(r[i] < n);
                assert(r[i] != k);
            }
        }
        vstd::set_lib::lemma_len_subset(ints.to_set(), range);
        assert(vstd::set_lib::set_int_range(0, n).contains(k));
        assert(range.len() == n - 1);
    }
}

/// Up to `limit` shortest simple paths between two entities over undirected
/// steps, each of at most `max_len` hops and each listed once, shortest first. The search prunes
/// walks that cannot reach the target within `max_len` and stops after a
/// fixed number of visits. When the walks it visits (those it does not cut)
/// are fewer than it may visit, none is missed: every simple path of at
/// most `max_len` hops is returned, or `limit` paths none longer than it are.
pub fn trace(g: &Graph, from: &EntityRef, to: &EntityRef, limit: usize, max_len: usize) -> (r: TraceResult)
    requires
        last_index(entities_view(g.vault_spec().entities@), from@) is Some,
        last_index(entities_view(g.vault_spec().entities@), to@) is Some,
    ensures
        r.from@ == canonical(from@),
        r.to@ == canonical(to@),
        ({
            let s = last_index(entities_view(g.vault_spec().entities@), from@)->0;
            let t = last_index(entities_view(g.vault_spec().entities@), to@)->0;
            exists|raw: Seq<Seq<(usize, bool)>>|
                #[trigger] trace_ok(*g, s, t, limit as nat, max_len as nat, raw, r.paths@) && (few_visits(
                    *g,
                    s,
                    t,
                    max_len as nat,
                ) ==> shortest_found(g.edges_spec(), s, t, limit as nat, max_len as nat, raw))
        }),
{
    let ghost ev = g.edges_spec();
    let s = g.index_of(from).unwrap();
    let t = g.index_of(to).unwrap();
    let n = g.vault().entities.len();
    let edges = g.edges();
    let ne = edges.len();
    proof {
        assert(crate::graph::edges_view(edges@).len() == edges@.len());
    }
    let paths = find_paths(g, s, t, max_len);
    let order = length_order(&paths);
    let count = if limit < order.len() {
        limit
    } else {
        order.len()
    };
    let ghost raw = Seq::new(count as nat, |j: int| paths@[order@[j] as int]@);
    let mut out: Vec<TracePath> = Vec::new();
    let mut j: usize = 0;
    while j < count
        invariant
            j <= count,
            count <= order@.len(),
            order@.len() == paths@.len(),
            is_permutation_of_range(order@, paths@.len() as int),
            distinct_from(paths@, 0),
            raw == Seq::new(count as nat, |j: int| paths@[order@[j] as int]@),
            paths_ok(ev, s as int, t as int, max_len as nat, paths@),
            ev == g.edges_spec(),
            edges_in_range(ev, n as int),
            ev.len() <= usize::MAX,
            n == g.vault_spec().entities@.len(),
            s < n,
            out@.len() == j,
            forall|q: int|
                0 <= q < j ==> (#[trigger] out@[q]).length == raw[q].len() && trace_hops_view(
                    out@[q].hops@,
                ) == path_text(*g, raw[q]),
        decreases count - j,
    {
        let p = &paths[order[j]];
        proof {
            assert(simple_walk(ev, s as int, t as int, paths@[order@[j as int] as int]@));
        }
        let hops = render_hops(g, p, Ghost(s as int), Ghost(t as int));
        out.push(TracePath { length: p.len(), hops });
        j = j + 1;
    }
    proof {
        assert forall|a: int, b: int| 0 <= a < b < raw.len() implies #[trigger] raw[a].len() <= #[trigger] raw[b].len() by {
            assert(raw[a] == paths@[order@[a] as int]@);
            assert(raw[b] == paths@[order@[b] as int]@);
        }
        assert forall|a: int, b: int| 0 <= a < b < raw.len() implies #[trigger] raw[a] != #[trigger] raw[b] by {
            let x = order@[a] as int;
            let y = order@[b] as int;
            assert(raw[a] == paths@[x]@);
            assert(raw[b] == paths@[y]@);
            assert(x != y);
            if x < y {
                assert(paths@[x]@ != paths@[y]@);
            } else {
                assert(paths@[y]@ != paths@[x]@);
            }
        }
        assert forall|q: int| 0 <= q < raw.len() implies {
            &&& simple_walk(ev, s as int, t as int, #[trigger] raw[q])
            &&& raw[q].len() <= max_len
            &&& out@[q].length == raw[q].len()
            &&& trace_hops_view(out@[q].hops@) == path_text(*g, raw[q])
        } by {
            assert(raw[q] == paths@[order@[q] as int]@);
        }
        assert(trace_ok(*g, s as int, t as int, limit as nat, max_len as nat, raw, out@));
        if few_visits(*g, s as int, t as int, max_len as nat) {
            assert forall|p: Seq<(usize, bool)>|
                #[trigger] simple_walk(ev, s as int, t as int, p) && p.len() <= max_len implies raw.contains(p) || (
                raw.len() == limit && forall|i: int| 0 <= i < raw.len() ==> #[trigger] raw[i].len() <= p.len()) by {
                assert(p.take(0) =~= Seq::<(usize, bool)>::empty());
                assert(extends(p, seq![]));
                let k0 = choose|k0: int| 0 <= k0 < paths@.len() && (#[trigger] paths@[k0])@ == p;
                lemma_permutation_onto(order@, paths@.len() as int, k0);
                let jp = choose|jp: int| 0 <= jp < order@.len() && order@[jp] == k0;
                if jp < count {
                    assert(raw[jp] == p);
                } else {
                    assert forall|i: int| 0 <= i < raw.len() implies #[trigger] raw[i].len() <= p.len() by {
                        assert(raw[i] == paths@[order@[i] as int]@);
                        assert(paths@[order@[i] as int]@.len() <= paths@[order@[jp] as int]@.len());
                    }
                }
            }
            assert(shortest_found(ev, s as int, t as int, limit as nat, max_len as nat, raw));
        }
    }
    let r = TraceResult { from: from.to_string(), to: to.to_string(), paths: out };
    proof {
        assert(last_index(entities_view(g.vault_spec().entities@), from@)->0 == s as int);
        assert(last_index(entities_view(g.vault_spec().entities@), to@)->0 == t as int);
        assert(trace_ok(*g, s as int, t as int, limit as nat, max_len as nat, raw, r.paths@));
        assert(few_visits(*g, s as int, t as int, max_len as nat) ==> shortest_found(ev, s as int, t as int, limit as nat, max_len as nat, raw));
        let si = last_index(entities_view(g.vault_spec().entities@), from@)->0;
        let ti = last_index(entities_view(g.vault_spec().entities@), to@)->0;
        assert(trace_ok(*g, si, ti, limit as nat, max_len as nat, raw, r.paths@) && (few_visits(
            *g,
            si,
            ti,
            max_len as nat,
        ) ==> shortest_found(g.edges_spec(), si, ti, limit as nat, max_len as nat, raw)));
    }
    r
}


// ──────────────────────── distances and ranking ────────────────────────

/// The distance at which `m` is first reached within `depth` steps, if it is.
pub open spec fn distance_of(g: Graph, w: WalkV, start: int, depth: nat, m: int) -> Option<nat> {
    if within(g, w, start, depth).contains(m) {
        Some(choose|k: nat| k <= depth && at_distance(g, w, start, m, k))
    } else {
        None
    }
}

/// Past the start, an entity within `k` admitted steps is one admitted step
/// from an entity within `k - 1` steps.
proof fn lemma_within_has_predecessor(g: Graph, w: WalkV, start: int, k: nat, m: int)
    requires
        within(g, w, start, k).contains(m),
        m != start,
    ensures
        k > 0,
        exists|n: int| within(g, w, start, (k - 1) as nat).contains(n) && crate::bfs::adjacent(g, w, start, n, m),
    decreases k,
{
    if k > 0 {
        let prev = within(g, w, start, (k - 1) as nat);
        if prev.contains(m) {
            lemma_within_has_predecessor(g, w, start, (k - 1) as nat, m);
            let n = choose|n: int|
                within(g, w, start, (k - 2) as nat).contains(n) && crate::bfs::adjacent(g, w, start, n, m);
            crate::bfs::lemma_within_mono(g, w, start, (k - 2) as nat, (k - 1) as nat);
        }
    }
}

/// A change reaches an entity only across edges whose declared propagation
/// carries it toward that entity: every entity an impact walk reaches, other
/// than the changed one, is the target of an edge whose relation type is
/// declared `to-target` or `both`, or the source of one declared `to-source`
/// or `both` (and, when `via` is given, of one of those types), whose other
/// end is reached too. So an entity joined to the rest only by `none` edges,
/// or by edges of undeclared types, is never affected.
pub proof fn lemma_impact_crosses_carrying_edges(g: Graph, via: Seq<Seq<char>>, start: int, depth: nat, m: int)
    requires
        edges_in_range(g.edges_spec(), g.vault_spec().entities@.len() as int),
        g.vault_spec().entities@.len() <= usize::MAX,
        g.edges_spec().len() <= usize::MAX,
        distance_of(g, WalkV::Propagation { via }, start, depth, m) is Some,
        m != start,
    ensures
        exists|e: int, i: int|
            0 <= e < g.edges_spec().len() && 0 <= i < g.vault_spec().schema@.relations.len()
                && (#[trigger] g.vault_spec().schema@.relations[i]).0 == (#[trigger] g.edges_spec()[e]).rel
                && (via.len() == 0 || via.contains(g.edges_spec()[e].rel)) && {
                let p = g.vault_spec().schema@.relations[i].1.propagation;
                let ed = g.edges_spec()[e];
                ||| ed.target == m && (p is Both || p is ToTarget) && within(
                    g,
                    WalkV::Propagation { via },
                    start,
                    depth,
                ).contains(ed.source)
                ||| ed.source == m && (p is Both || p is ToSource) && within(
                    g,
                    WalkV::Propagation { via },
                    start,
                    depth,
                ).contains(ed.target)
            },
{
    broadcast use vstd::seq_lib::group_filter_ensures;

    let w = WalkV::Propagation { via };
    let ev = g.edges_spec();
    let sch = g.vault_spec().schema@;
    let n = g.vault_spec().entities@.len() as int;
    assert(within(g, w, start, depth).contains(m));
    lemma_within_has_predecessor(g, w, start, depth, m);
    let a = choose|a: int| within(g, w, start, (depth - 1) as nat).contains(a) && crate::bfs::adjacent(g, w, start, a, m);
    crate::bfs::lemma_within_mono(g, w, start, (depth - 1) as nat, depth);
    let ws = crate::bfs::walk_steps(g, w, start, a);
    let j = choose|j: int| 0 <= j < ws.len() && (#[trigger] ws[j]).other == m;
    let st = ws[j];
    let ps = crate::graph::propagation_steps(sch, ev, a);
    let adm = |s: Step| crate::bfs::admits(g, w, start, s);
    assert(ws == ps.filter(adm));
    assert(ws.contains(st));
    ps.lemma_filter_contains_rev(adm, st);
    assert(adm(st));
    let k = choose|k: int| 0 <= k < ps.len() && ps[k] == st;
    crate::graph::lemma_propagation_follows_declarations(sch, ev, a, n);
    assert(ps[k] == st);
    let e = st.edge as int;
    let i = choose|i: int|
        0 <= i < sch.relations.len() && (#[trigger] sch.relations[i]).0 == ev[e].rel && {
            let p = sch.relations[i].1.propagation;
            p is Both || (p is ToTarget && st.forward) || (p is ToSource && !st.forward)
        };
    assert(0 <= e < ev.len() && 0 <= i < sch.relations.len() && sch.relations[i].0 == ev[e].rel);
}

/// A walk's recorded distances are the true ones.
proof fn lemma_reached_distances(g: Graph, w: WalkV, start: int, depth: nat, r: crate::bfs::Reached)
    requires
        reached_ok(g, w, start, depth, r),
    ensures
        forall|m: int|
            0 <= m < g.vault_spec().entities@.len() ==> match #[trigger] r.dist@[m] {
                Some(k) => distance_of(g, w, start, depth, m) == Some(k as nat),
                None => distance_of(g, w, start, depth, m) is None,
            },
{
    assert forall|m: int| 0 <= m < g.vault_spec().entities@.len() implies match #[trigger] r.dist@[m] {
        Some(k) => distance_of(g, w, start, depth, m) == Some(k as nat),
        None => distance_of(g, w, start, depth, m) is None,
    } by {
        assert(dist_sound(g, w, start, r.dist@, m, depth));
        match r.dist@[m] {
            Some(k) => {
                assert(at_distance(g, w, start, m, k as nat));
                crate::bfs::lemma_within_mono(g, w, start, k as nat, depth);
                assert(within(g, w, start, depth).contains(m));
                let k2 = choose|k2: nat| k2 <= depth && at_distance(g, w, start, m, k2);
                crate::bfs::lemma_distance_unique(g, w, start, m, k as nat, k2);
            },
            None => {},
        }
    }
}

/// The entities among the first `k` reached within `depth` steps, ascending.
pub open spec fn reached_upto(g: Graph, w: WalkV, start: int, depth: nat, k: nat) -> Seq<int>
    decreases k,
{
    if k == 0 {
        seq![]
    } else {
        let before = reached_upto(g, w, start, depth, (k - 1) as nat);
        if distance_of(g, w, start, depth, k - 1) is Some {
            before.push(k - 1)
        } else {
            before
        }
    }
}

/// Reached entities are ranked by distance, then by ref.
pub open spec fn rank_key(g: Graph, w: WalkV, start: int, depth: nat, m: int) -> Seq<KeyPartV> {
    seq![
        KeyPartV::Num(distance_of(g, w, start, depth, m)->0 as u64),
        KeyPartV::Text(ref_text(g, m)),
    ]
}

/// The entities among the first `k` reached, less the start when `skip_start`.
pub open spec fn kept_upto(g: Graph, w: WalkV, start: int, depth: nat, skip_start: bool, k: nat) -> Seq<int> {
    if skip_start {
        reached_upto(g, w, start, depth, k).filter(|m: int| m != start)
    } else {
        reached_upto(g, w, start, depth, k)
    }
}

/// The reached entities (`skip_start`: but the start) in rank order.
pub open spec fn ranked(g: Graph, w: WalkV, start: int, depth: nat, skip_start: bool) -> Seq<int> {
    let rs = kept_upto(g, w, start, depth, skip_start, g.vault_spec().entities@.len());
    let keys = rs.map_values(|m: int| rank_key(g, w, start, depth, m));
    sorted_positions(keys, rs.len()).map_values(|p: usize| rs[p as int])
}

/// The reached entities, ranked, computed from a finished walk.
fn rank_reached(
    g: &Graph,
    r: &crate::bfs::Reached,
    skip_start: bool,
    Ghost(w): Ghost<WalkV>,
    start: usize,
    Ghost(depth): Ghost<nat>,
) -> (out: Vec<(usize, usize)>)
    requires
        reached_ok(*g, w, start as int, depth, *r),
        depth <= usize::MAX,
        start < g.vault_spec().entities@.len(),
    ensures
        out@.len() == ranked(*g, w, start as int, depth, skip_start).len(),
        forall|i: int|
            0 <= i < out@.len() ==> (#[trigger] out@[i]).0 as int == ranked(
                *g,
                w,
                start as int,
                depth,
                skip_start,
            )[i] && distance_of(*g, w, start as int, depth, out@[i].0 as int) == Some(out@[i].1 as nat)
                && out@[i].0 < g.vault_spec().entities@.len(),
{
    let n = g.vault().entities.len();
    proof {
        lemma_reached_distances(*g, w, start as int, depth, *r);
    }
    let ghost all = reached_upto(*g, w, start as int, depth, n as nat);
    let mut rs: Vec<(usize, usize)> = Vec::new();
    let mut keys: Vec<SortKey> = Vec::new();
    let ghost mut kept: Seq<int> = seq![];
    let mut m: usize = 0;
    while m < n
        invariant
            m <= n,
            n == g.vault_spec().entities@.len(),
            r.dist@.len() == n,
            depth <= usize::MAX,
            forall|x: int|
                0 <= x < n ==> match #[trigger] r.dist@[x] {
                    Some(k) => distance_of(*g, w, start as int, depth, x) == Some(k as nat),
                    None => distance_of(*g, w, start as int, depth, x) is None,
                },
            kept == kept_upto(*g, w, start as int, depth, skip_start, m as nat),
            rs@.len() == kept.len(),
            keys@.len() == kept.len(),
            forall|i: int|
                0 <= i < kept.len() ==> (#[trigger] rs@[i]).0 as int == kept[i] && distance_of(
                    *g,
                    w,
                    start as int,
                    depth,
                    kept[i],
                ) == Some(rs@[i].1 as nat) && rs@[i].0 < n,
            forall|i: int|
                0 <= i < kept.len() ==> key_view(#[trigger] keys@[i]) == rank_key(
                    *g,
                    w,
                    start as int,
                    depth,
                    kept[i],
                ),
        decreases n - m,
    {
        let ghost before = reached_upto(*g, w, start as int, depth, m as nat);
        match r.dist[m] {
            Some(d) => {
                proof {
                    assert(distance_of(*g, w, start as int, depth, m as int) == Some(d as nat));
                    reveal_with_fuel(Seq::filter, 1);
                    assert(before.push(m as int).drop_last() =~= before);
                }
                if !(skip_start && m == start) {
                    let mut key = num_key(d as u64);
                    crate::sort::push_text(&mut key, g.entity(m).eref.to_string().as_str());
                    keys.push(key);
                    rs.push((m, d));
                    proof {
                        kept = kept.push(m as int);
                        assert(key_view(keys@[keys@.len() - 1]) =~= rank_key(*g, w, start as int, depth, m as int));
                    }
                }
            },
            None => {},
        }
        m = m + 1;
    }
    let order = sort_indices(&keys);
    let ghost keysv = keys_view(keys@);
    proof {
        assert(keysv =~= kept.map_values(|x: int| rank_key(*g, w, start as int, depth, x)));
    }
    let mut out: Vec<(usize, usize)> = Vec::new();
    let mut i: usize = 0;
    while i < order.len()
        invariant
            i <= order.len(),
            order@ == sorted_positions(keysv, keys@.len() as nat),
            is_permutation_of_range(order@, keys@.len() as int),
            rs@.len() == kept.len(),
            keys@.len() == kept.len(),
            n == g.vault_spec().entities@.len(),
            forall|q: int|
                0 <= q < kept.len() ==> (#[trigger] rs@[q]).0 as int == kept[q] && distance_of(
                    *g,
                    w,
                    start as int,
                    depth,
                    kept[q],
                ) == Some(rs@[q].1 as nat) && rs@[q].0 < n,
            out@.len() == i,
            forall|q: int|
                0 <= q < i ==> (#[trigger] out@[q]) == rs@[order@[q] as int],
        decreases order.len() - i,
    {
        out.push(rs[order[i]]);
        i = i + 1;
    }
    proof {
        let rk = ranked(*g, w, start as int, depth, skip_start);
        assert(rk =~= order@.map_values(|p: usize| kept[p as int]));
        assert forall|q: int| 0 <= q < out@.len() implies (#[trigger] out@[q]).0 as int == rk[q]
            && distance_of(*g, w, start as int, depth, out@[q].0 as int) == Some(out@[q].1 as nat)
            && out@[q].0 < n by {
            assert(out@[q] == rs@[order@[q] as int]);
        }
    }
    out
}


// ───────────────────────────── neighbors ─────────────────────────────

/// An entity near the center: its ref, distance, title and first sentence.
pub struct NeighborNode {
    pub reference: String,
    pub distance: usize,
    pub title: String,
    pub summary: String,
}

/// An edge between two entities near the center.
pub struct NeighborEdge {
    pub from: String,
    pub rel: String,
    pub to: String,
    pub symmetric: bool,
    pub note: Option<String>,
}

/// The subgraph around an entity.
pub struct NeighborsResult {
    pub center: String,
    pub depth: usize,
    pub nodes: Vec<NeighborNode>,
    pub edges: Vec<NeighborEdge>,
}

pub open spec fn node_view(x: NeighborNode) -> (Seq<char>, nat, Seq<char>, Seq<char>) {
    (x.reference@, x.distance as nat, x.title@, x.summary@)
}

pub open spec fn nodes_view(v: Seq<NeighborNode>) -> Seq<(Seq<char>, nat, Seq<char>, Seq<char>)> {
    v.map_values(|x: NeighborNode| node_view(x))
}

pub open spec fn neighbor_edge_view(x: NeighborEdge) -> (Seq<char>, Seq<char>, Seq<char>, bool, Option<Seq<char>>) {
    (x.from@, x.rel@, x.to@, x.symmetric, crate::model::opt_text(x.note))
}

pub open spec fn neighbor_edges_view(v: Seq<NeighborEdge>) -> Seq<(Seq<char>, Seq<char>, Seq<char>, bool, Option<Seq<char>>)> {
    v.map_values(|x: NeighborEdge| neighbor_edge_view(x))
}

/// How a reached entity is listed: ref, distance, title, first sentence.
pub open spec fn node_text(g: Graph, w: WalkV, start: int, depth: nat, m: int) -> (Seq<char>, nat, Seq<char>, Seq<char>) {
    let e = g.vault_spec().entities@[m];
    (ref_text(g, m), distance_of(g, w, start, depth, m)->0, e.title_text(), crate::model::first_sentence_of(e.body@))
}

/// How an edge is listed.
pub open spec fn edge_text(g: Graph, e: EdgeV) -> (Seq<char>, Seq<char>, Seq<char>, bool, Option<Seq<char>>) {
    (ref_text(g, e.source), e.rel, ref_text(g, e.target), is_symmetric_in(g.vault_spec().schema@, e.rel), e.note)
}

/// Is edge `e` inside the subgraph: both ends reached, and its relation
/// among `rels` (any, when `rels` is empty)?
pub open spec fn induced(g: Graph, w: WalkV, start: int, depth: nat, rels: Seq<Seq<char>>, e: EdgeV) -> bool {
    &&& distance_of(g, w, start, depth, e.source) is Some
    &&& distance_of(g, w, start, depth, e.target) is Some
    &&& (rels.len() == 0 || rels.contains(e.rel))
}

/// The listed edges among the first `k` edges of the graph.
pub open spec fn induced_upto(g: Graph, w: WalkV, start: int, depth: nat, rels: Seq<Seq<char>>, k: nat) -> Seq<
    (Seq<char>, Seq<char>, Seq<char>, bool, Option<Seq<char>>),
>
    decreases k,
{
    if k == 0 {
        seq![]
    } else {
        let before = induced_upto(g, w, start, depth, rels, (k - 1) as nat);
        let e = g.edges_spec()[k - 1];
        if induced(g, w, start, depth, rels, e) {
            before.push(edge_text(g, e))
        } else {
            before
        }
    }
}

/// The undirected walk that `neighbors` makes.
pub open spec fn neighbor_walk(kinds: Seq<String>, relations: Seq<String>) -> WalkV {
    WalkV::Undirected { kinds: crate::model::strs(kinds), relations: crate::model::strs(relations) }
}

/// The subgraph within `depth` undirected steps of an entity: the steps go
/// over the listed relation types (any, when none is listed) into the listed
/// kinds (any, when none is listed). Entities come nearest first, then by
/// ref; the edges are those of the graph between reached entities whose
/// relation is admitted, in graph order.
pub fn neighbors(g: &Graph, eref: &EntityRef, depth: usize, kinds: &Vec<String>, relations: &Vec<String>) -> (r: NeighborsResult)
    requires
        last_index(entities_view(g.vault_spec().entities@), eref@) is Some,
    ensures
        r.center@ == canonical(eref@),
        r.depth == depth,
        ({
            let start = last_index(entities_view(g.vault_spec().entities@), eref@)->0;
            let w = neighbor_walk(kinds@, relations@);
            &&& nodes_view(r.nodes@) == ranked(*g, w, start, depth as nat, false).map_values(
                |m: int| node_text(*g, w, start, depth as nat, m),
            )
            &&& neighbor_edges_view(r.edges@) == induced_upto(
                *g,
                w,
                start,
                depth as nat,
                crate::model::strs(relations@),
                g.edges_spec().len(),
            )
        }),
{
    let start = g.index_of(eref).unwrap();
    let w = Walk::Undirected { kinds: crate::model::clone_list(kinds), relations: crate::model::clone_list(relations) };
    let ghost wv = neighbor_walk(kinds@, relations@);
    assert(w@ == wv);
    let reached = walk(g, &w, start, depth);
    let ranked_nodes = rank_reached(g, &reached, false, Ghost(wv), start, Ghost(depth as nat));
    let ghost rk = ranked(*g, wv, start as int, depth as nat, false);
    let mut nodes: Vec<NeighborNode> = Vec::new();
    let mut i: usize = 0;
    while i < ranked_nodes.len()
        invariant
            i <= ranked_nodes.len(),
            ranked_nodes@.len() == rk.len(),
            forall|q: int|
                0 <= q < ranked_nodes@.len() ==> (#[trigger] ranked_nodes@[q]).0 as int == rk[q]
                    && distance_of(*g, wv, start as int, depth as nat, ranked_nodes@[q].0 as int) == Some(
                    ranked_nodes@[q].1 as nat,
                ) && ranked_nodes@[q].0 < g.vault_spec().entities@.len(),
            nodes_view(nodes@) == rk.take(i as int).map_values(
                |m: int| node_text(*g, wv, start as int, depth as nat, m),
            ),
        decreases ranked_nodes.len() - i,
    {
        let (m, d) = ranked_nodes[i];
        let e = g.entity(m);
        nodes.push(
            NeighborNode {
                reference: e.eref.to_string(),
                distance: d,
                title: crate::text::owned(e.title()),
                summary: e.first_sentence(),
            },
        );
        proof {
            assert(rk.take(i + 1) =~= rk.take(i as int).push(m as int));
            assert(nodes_view(nodes@) =~= nodes_view(nodes@.drop_last()).push(node_view(nodes@.last())));
            assert(rk.take(i + 1).map_values(|m: int| node_text(*g, wv, start as int, depth as nat, m))
                =~= rk.take(i as int).map_values(|m: int| node_text(*g, wv, start as int, depth as nat, m)).push(
                node_text(*g, wv, start as int, depth as nat, m as int),
            ));
        }
        i = i + 1;
    }
    proof {
        assert(rk.take(rk.len() as int) =~= rk);
        lemma_reached_distances(*g, wv, start as int, depth as nat, reached);
    }
    let edges = g.edges();
    let n = g.vault().entities.len();
    let mut out_edges: Vec<NeighborEdge> = Vec::new();
    let mut j: usize = 0;
    while j < edges.len()
        invariant
            j <= edges.len(),
            crate::graph::edges_view(edges@) == g.edges_spec(),
            forall|q: int| 0 <= q < edges@.len() ==> (#[trigger] edges@[q]).source < n && edges@[q].target < n,
            n == g.vault_spec().entities@.len(),
            reached.dist@.len() == n,
            forall|x: int|
                0 <= x < n ==> match #[trigger] reached.dist@[x] {
                    Some(k) => distance_of(*g, wv, start as int, depth as nat, x) == Some(k as nat),
                    None => distance_of(*g, wv, start as int, depth as nat, x) is None,
                },
            neighbor_edges_view(out_edges@) == induced_upto(
                *g,
                wv,
                start as int,
                depth as nat,
                crate::model::strs(relations@),
                j as nat,
            ),
        decreases edges.len() - j,
    {
        let e = &edges[j];
        let keep = reached.dist[e.source].is_some() && reached.dist[e.target].is_some() && (relations.len() == 0
            || crate::model::list_contains(relations, e.rel.as_str()));
        proof {
            assert(g.edges_spec()[j as int] == edges@[j as int]@);
            assert(reached.dist@[e.source as int] is Some <==> distance_of(*g, wv, start as int, depth as nat, e.source as int) is Some);
            assert(reached.dist@[e.target as int] is Some <==> distance_of(*g, wv, start as int, depth as nat, e.target as int) is Some);
        }
        if keep {
            let note = match &e.note {
                Some(x) => Some(x.clone()),
                None => None,
            };
            out_edges.push(
                NeighborEdge {
                    from: g.entity(e.source).eref.to_string(),
                    rel: e.rel.clone(),
                    to: g.entity(e.target).eref.to_string(),
                    symmetric: g.is_symmetric(e.rel.as_str()),
                    note,
                },
            );
            proof {
                assert(neighbor_edges_view(out_edges@) =~= neighbor_edges_view(out_edges@.drop_last()).push(
                    neighbor_edge_view(out_edges@.last()),
                ));
            }
        }
        j = j + 1;
    }
    NeighborsResult { center: eref.to_string(), depth, nodes, edges: out_edges }
}


// ───────────────────────────── impact ─────────────────────────────

/// One hop of a witness path: the relation, and the entities it joins.
pub struct ImpactHop {
    pub via: String,
    pub from: String,
    pub to: String,
}

/// An entity a change may reach, with one shortest path that reaches it.
pub struct ImpactEntity {
    pub reference: String,
    pub summary: String,
    pub path: Vec<ImpactHop>,
}

/// The entities reached at one distance.
pub struct ImpactBucket {
    pub distance: usize,
    pub entities: Vec<ImpactEntity>,
}

/// What a change to an entity may reach.
pub struct ImpactResult {
    pub changed: String,
    pub depth: usize,
    pub affected: usize,
    pub buckets: Vec<ImpactBucket>,
}

pub open spec fn impact_hop_view(h: ImpactHop) -> (Seq<char>, Seq<char>, Seq<char>) {
    (h.via@, h.from@, h.to@)
}

pub open spec fn impact_hops_view(v: Seq<ImpactHop>) -> Seq<(Seq<char>, Seq<char>, Seq<char>)> {
    v.map_values(|h: ImpactHop| impact_hop_view(h))
}

/// `path` follows the entities `ns` over the edges `es`: a walk of `d`
/// admitted steps from `start`, one step further away each time, ending at
/// the entity whose ref is `reference`.
pub open spec fn walk_witness(
    g: Graph,
    w: WalkV,
    start: int,
    depth: nat,
    d: nat,
    path: Seq<(Seq<char>, Seq<char>, Seq<char>)>,
    reference: Seq<char>,
    ns: Seq<int>,
    es: Seq<usize>,
) -> bool {
    &&& ns.len() == d + 1
    &&& es.len() == d
    &&& path.len() == d
    &&& ns[0] == start
    &&& ref_text(g, ns[d as int]) == reference
    &&& forall|i: int|
        0 <= i < d ==> crate::bfs::step_from(g, w, start, ns[i], ns[i + 1], #[trigger] es[i]) && path[i] == (
            g.edges_spec()[es[i] as int].rel,
            ref_text(g, ns[i]),
            ref_text(g, ns[i + 1]),
        )
    &&& forall|i: int| 0 <= i <= d ==> distance_of(g, w, start, depth, #[trigger] ns[i]) == Some(i as nat)
}

pub open spec fn witness_ok(
    g: Graph,
    w: WalkV,
    start: int,
    depth: nat,
    d: nat,
    path: Seq<(Seq<char>, Seq<char>, Seq<char>)>,
    reference: Seq<char>,
) -> bool {
    exists|ns: Seq<int>, es: Seq<usize>| walk_witness(g, w, start, depth, d, path, reference, ns, es)
}

/// A shortest path from `start` to `m`, read back along the recorded predecessors.
#[verifier::rlimit(60)]
fn witness_path(
    g: &Graph,
    reached: &crate::bfs::Reached,
    Ghost(w): Ghost<WalkV>,
    start: usize,
    Ghost(depth): Ghost<nat>,
    m: usize,
    d: usize,
) -> (path: Vec<ImpactHop>)
    requires
        reached_ok(*g, w, start as int, depth, *reached),
        start < g.vault_spec().entities@.len(),
        m < g.vault_spec().entities@.len(),
        reached.dist@[m as int] == Some(d),
    ensures
        witness_ok(*g, w, start as int, depth, d as nat, impact_hops_view(path@), ref_text(*g, m as int)),
{
    let n = g.vault().entities.len();
    let edges = g.edges();
    proof {
        lemma_reached_distances(*g, w, start as int, depth, *reached);
    }
    let mut rev: Vec<ImpactHop> = Vec::new();
    let mut cur = m;
    let mut k = d;
    let ghost mut ns: Seq<int> = seq![m as int];
    let ghost mut es: Seq<usize> = seq![];
    while cur != start
        invariant
            n == g.vault_spec().entities@.len(),
            crate::graph::edges_view(edges@) == g.edges_spec(),
            edges_in_range(g.edges_spec(), n as int),
            reached_ok(*g, w, start as int, depth, *reached),
            forall|x: int|
                0 <= x < n ==> match #[trigger] reached.dist@[x] {
                    Some(kk) => distance_of(*g, w, start as int, depth, x) == Some(kk as nat),
                    None => distance_of(*g, w, start as int, depth, x) is None,
                },
            start < n,
            cur < n,
            k <= d,
            reached.dist@[cur as int] == Some(k),
            ns.len() == d - k + 1,
            es.len() == d - k,
            rev@.len() == d - k,
            ns[0] == cur as int,
            ns[ns.len() - 1] == m as int,
            forall|i: int|
                0 <= i < es.len() ==> crate::bfs::step_from(*g, w, start as int, ns[i], ns[i + 1], #[trigger] es[i])
                    && impact_hop_view(rev@[es.len() - 1 - i]) == (
                    g.edges_spec()[es[i] as int].rel,
                    ref_text(*g, ns[i]),
                    ref_text(*g, ns[i + 1]),
                ),
            forall|i: int|
                0 <= i < ns.len() ==> distance_of(*g, w, start as int, depth, #[trigger] ns[i]) == Some(
                    (k + i) as nat,
                ),
        decreases k,
    {
        proof {
            assert(crate::bfs::parent_ok(*g, w, start as int, reached.dist@, reached.parent@, cur as int));
            if k == 0 {
                assert(dist_sound(*g, w, start as int, reached.dist@, cur as int, depth));
                assert(within(*g, w, start as int, 0).contains(cur as int));
            }
        }
        let (prev, ei) = reached.parent[cur].unwrap();
        proof {
            crate::bfs::lemma_walk_steps_bounds(*g, w, start as int, prev as int);
            let j = choose|j: int|
                0 <= j < crate::bfs::walk_steps(*g, w, start as int, prev as int).len() && (#[trigger] crate::bfs::walk_steps(
                    *g,
                    w,
                    start as int,
                    prev as int,
                )[j]).other == cur && crate::bfs::walk_steps(*g, w, start as int, prev as int)[j].edge == ei;
            assert(ei < edges@.len());
            assert(g.edges_spec()[ei as int] == edges@[ei as int]@);
        }
        let hop = ImpactHop {
            via: edges[ei].rel.clone(),
            from: g.entity(prev).eref.to_string(),
            to: g.entity(cur).eref.to_string(),
        };
        rev.push(hop);
        proof {
            let ns0 = ns;
            let es0 = es;
            ns = seq![prev as int] + ns0;
            es = seq![ei] + es0;
            assert forall|i: int| 0 <= i < es.len() implies crate::bfs::step_from(*g, w, start as int, ns[i], ns[i + 1], #[trigger] es[i])
                && impact_hop_view(rev@[es.len() - 1 - i]) == (
                g.edges_spec()[es[i] as int].rel,
                ref_text(*g, ns[i]),
                ref_text(*g, ns[i + 1]),
            ) by {
                if i > 0 {
                    assert(es[i] == es0[i - 1]);
                    assert(ns[i] == ns0[i - 1]);
                    assert(ns[i + 1] == ns0[i]);
                    assert(rev@[es.len() - 1 - i] == rev@[es0.len() - 1 - (i - 1)]);
                } else {
                    assert(ns[1] == ns0[0]);
                }
            }
            assert forall|i: int| 0 <= i < ns.len() implies distance_of(*g, w, start as int, depth, #[trigger] ns[i]) == Some(
                (k - 1 + i) as nat,
            ) by {
                if i > 0 {
                    assert(ns[i] == ns0[i - 1]);
                }
            }
        }
        cur = prev;
        k = k - 1;
    }
    proof {
        if k != 0 {
            assert(dist_sound(*g, w, start as int, reached.dist@, start as int, depth));
            assert(at_distance(*g, w, start as int, start as int, 0)) by {
                assert(within(*g, w, start as int, 0).contains(start as int));
            }
            crate::bfs::lemma_distance_unique(*g, w, start as int, start as int, 0, k as nat);
        }
    }
    let mut path: Vec<ImpactHop> = Vec::new();
    let mut j: usize = rev.len();
    while j > 0
        invariant
            j <= rev@.len(),
            path@.len() == rev@.len() - j,
            forall|q: int| 0 <= q < path@.len() ==> impact_hop_view(#[trigger] path@[q]) == impact_hop_view(rev@[rev@.len() - 1 - q]),
        decreases j,
    {
        j = j - 1;
        let h = &rev[j];
        path.push(ImpactHop { via: h.via.clone(), from: h.from.clone(), to: h.to.clone() });
    }
    proof {
        let pv = impact_hops_view(path@);
        assert(walk_witness(*g, w, start as int, depth, d as nat, pv, ref_text(*g, m as int), ns, es));
    }
    path
}


/// How an affected entity is listed: its ref and first sentence.
pub open spec fn entity_head(g: Graph, m: int) -> (Seq<char>, Seq<char>) {
    (ref_text(g, m), crate::model::first_sentence_of(g.vault_spec().entities@[m].body@))
}

/// Consecutive entities at the same distance share a bucket.
pub open spec fn buckets_of(g: Graph, w: WalkV, start: int, depth: nat, xs: Seq<int>) -> Seq<
    (nat, Seq<(Seq<char>, Seq<char>)>),
>
    decreases xs.len(),
{
    if xs.len() == 0 {
        seq![]
    } else {
        let gs = buckets_of(g, w, start, depth, xs.drop_last());
        let x = xs.last();
        let d = distance_of(g, w, start, depth, x)->0;
        if gs.len() > 0 && gs.last().0 == d {
            gs.update(gs.len() - 1, (d, gs.last().1.push(entity_head(g, x))))
        } else {
            gs.push((d, seq![entity_head(g, x)]))
        }
    }
}

pub open spec fn entity_head_view(x: ImpactEntity) -> (Seq<char>, Seq<char>) {
    (x.reference@, x.summary@)
}

pub open spec fn bucket_view(b: ImpactBucket) -> (nat, Seq<(Seq<char>, Seq<char>)>) {
    (b.distance as nat, b.entities@.map_values(|x: ImpactEntity| entity_head_view(x)))
}

pub open spec fn buckets_view(v: Seq<ImpactBucket>) -> Seq<(nat, Seq<(Seq<char>, Seq<char>)>)> {
    v.map_values(|b: ImpactBucket| bucket_view(b))
}

/// Every listed entity carries a witness path as long as its distance.
pub open spec fn witnesses_ok(g: Graph, w: WalkV, start: int, depth: nat, d: nat, v: Seq<ImpactEntity>) -> bool {
    forall|j: int|
        0 <= j < v.len() ==> witness_ok(
            g,
            w,
            start,
            depth,
            d,
            impact_hops_view((#[trigger] v[j]).path@),
            v[j].reference@,
        )
}

/// What a change to an entity may reach within `depth` steps of the
/// propagation digraph (over the listed relation types, any when none is
/// listed): the entities other than the changed one, nearest first, then by
/// ref, in one bucket per distance, each with one shortest path that reaches
/// it. A candidate set, not an oracle.
#[verifier::rlimit(40)]
pub fn impact(g: &Graph, eref: &EntityRef, depth: usize, via: &Vec<String>) -> (r: ImpactResult)
    requires
        last_index(entities_view(g.vault_spec().entities@), eref@) is Some,
    ensures
        r.changed@ == canonical(eref@),
        r.depth == depth,
        ({
            let start = last_index(entities_view(g.vault_spec().entities@), eref@)->0;
            let w = WalkV::Propagation { via: crate::model::strs(via@) };
            let rk = ranked(*g, w, start, depth as nat, true);
            &&& r.affected == rk.len()
            &&& buckets_view(r.buckets@) == buckets_of(*g, w, start, depth as nat, rk)
            &&& forall|b: int|
                0 <= b < r.buckets@.len() ==> witnesses_ok(
                    *g,
                    w,
                    start,
                    depth as nat,
                    (#[trigger] r.buckets@[b]).distance as nat,
                    r.buckets@[b].entities@,
                )
        }),
{
    let start = g.index_of(eref).unwrap();
    let w = Walk::Propagation { via: crate::model::clone_list(via) };
    let ghost wv = WalkV::Propagation { via: crate::model::strs(via@) };
    assert(w@ == wv);
    let reached = walk(g, &w, start, depth);
    let affected = rank_reached(g, &reached, true, Ghost(wv), start, Ghost(depth as nat));
    let ghost rk = ranked(*g, wv, start as int, depth as nat, true);
    proof {
        lemma_reached_distances(*g, wv, start as int, depth as nat, reached);
    }
    let mut buckets: Vec<ImpactBucket> = Vec::new();
    let mut cur: Vec<ImpactEntity> = Vec::new();
    let mut cur_d: usize = 0;
    let mut i: usize = 0;
    while i < affected.len()
        invariant
            i <= affected.len(),
            affected@.len() == rk.len(),
            start < g.vault_spec().entities@.len(),
            reached_ok(*g, wv, start as int, depth as nat, reached),
            forall|x: int|
                0 <= x < g.vault_spec().entities@.len() ==> match #[trigger] reached.dist@[x] {
                    Some(kk) => distance_of(*g, wv, start as int, depth as nat, x) == Some(kk as nat),
                    None => distance_of(*g, wv, start as int, depth as nat, x) is None,
                },
            forall|q: int|
                0 <= q < affected@.len() ==> (#[trigger] affected@[q]).0 as int == rk[q] && distance_of(
                    *g,
                    wv,
                    start as int,
                    depth as nat,
                    affected@[q].0 as int,
                ) == Some(affected@[q].1 as nat) && affected@[q].0 < g.vault_spec().entities@.len(),
            cur@.len() == 0 <==> i == 0,
            (if cur@.len() == 0 {
                buckets_view(buckets@)
            } else {
                buckets_view(buckets@).push((cur_d as nat, cur@.map_values(|x: ImpactEntity| entity_head_view(x))))
            }) == buckets_of(*g, wv, start as int, depth as nat, rk.take(i as int)),
            forall|b: int|
                0 <= b < buckets@.len() ==> witnesses_ok(
                    *g,
                    wv,
                    start as int,
                    depth as nat,
                    (#[trigger] buckets@[b]).distance as nat,
                    buckets@[b].entities@,
                ),
            witnesses_ok(*g, wv, start as int, depth as nat, cur_d as nat, cur@),
        decreases affected.len() - i,
    {
        let (m, d) = affected[i];
        proof {
            assert(reached.dist@[m as int] == Some(d));
        }
        let path = witness_path(g, &reached, Ghost(wv), start, Ghost(depth as nat), m, d);
        let e = g.entity(m);
        let item = ImpactEntity { reference: e.eref.to_string(), summary: e.first_sentence(), path };
        let ghost before_b = buckets@;
        let ghost before_c = cur@;
        let ghost xs = rk.take(i + 1);
        proof {
            assert(xs.drop_last() =~= rk.take(i as int));
            assert(xs.last() == m as int);
        }
        if cur.len() > 0 && cur_d == d {
            cur.push(item);
            proof {
                assert(cur@.map_values(|x: ImpactEntity| entity_head_view(x)) =~= before_c.map_values(
                    |x: ImpactEntity| entity_head_view(x),
                ).push(entity_head(*g, m as int)));
                assert(witnesses_ok(*g, wv, start as int, depth as nat, cur_d as nat, cur@)) by {
                    assert forall|j: int| 0 <= j < cur@.len() implies witness_ok(
                        *g,
                        wv,
                        start as int,
                        depth as nat,
                        cur_d as nat,
                        impact_hops_view((#[trigger] cur@[j]).path@),
                        cur@[j].reference@,
                    ) by {
                        if j < before_c.len() {
                            assert(cur@[j] == before_c[j]);
                        }
                    }
                }
            }
        } else {
            if cur.len() > 0 {
                buckets.push(ImpactBucket { distance: cur_d, entities: cur });
                proof {
                    assert(buckets_view(buckets@) =~= buckets_view(before_b).push(bucket_view(buckets@.last())));
                    assert forall|b: int| 0 <= b < buckets@.len() implies witnesses_ok(
                        *g,
                        wv,
                        start as int,
                        depth as nat,
                        (#[trigger] buckets@[b]).distance as nat,
                        buckets@[b].entities@,
                    ) by {
                        if b < before_b.len() {
                            assert(buckets@[b] == before_b[b]);
                        }
                    }
                }
            }
            cur = Vec::new();
            cur.push(item);
            cur_d = d;
            proof {
                assert(cur@.map_values(|x: ImpactEntity| entity_head_view(x)) =~= seq![entity_head(*g, m as int)]);
            }
        }
        i = i + 1;
    }
    if cur.len() > 0 {
        let ghost before_b = buckets@;
        buckets.push(ImpactBucket { distance: cur_d, entities: cur });
        proof {
            assert(buckets_view(buckets@) =~= buckets_view(before_b).push(bucket_view(buckets@.last())));
            assert forall|b: int| 0 <= b < buckets@.len() implies witnesses_ok(
                *g,
                wv,
                start as int,
                depth as nat,
                (#[trigger] buckets@[b]).distance as nat,
                buckets@[b].entities@,
            ) by {
                if b < before_b.len() {
                    assert(buckets@[b] == before_b[b]);
                }
            }
        }
    }
    proof {
        assert(rk.take(rk.len() as int) =~= rk);
    }
    ImpactResult { changed: eref.to_string(), depth, affected: affected.len(), buckets }
}


// ───────────────────────────── search ─────────────────────────────

/// One ranked search hit.
pub struct SearchHit {
    pub reference: String,
    pub score: u64,
    pub matched: &'static str,
    pub summary: String,
}

/// The hits of a search.
pub struct SearchResult {
    pub query: String,
    pub results: Vec<SearchHit>,
}

pub open spec fn hit_view(h: SearchHit) -> (Seq<char>, u64, Seq<char>, Seq<char>) {
    (h.reference@, h.score, h.matched@, h.summary@)
}

pub open spec fn hits_view(v: Seq<SearchHit>) -> Seq<(Seq<char>, u64, Seq<char>, Seq<char>)> {
    v.map_values(|h: SearchHit| hit_view(h))
}

/// Some tag, lowercased, equals `ql`.
pub open spec fn tag_matches(tags: Seq<String>, ql: Seq<char>) -> bool {
    exists|i: int| 0 <= i < tags.len() && lowercase_of((#[trigger] tags[i])@) == ql
}

/// The best tier an entity matches the lowercased query `ql` on: the name
/// exactly, as a prefix, as a substring; the title; a tag exactly; the body.
pub open spec fn match_tier(e: crate::model::Entity, ql: Seq<char>) -> Option<(u64, Seq<char>)> {
    let name = lowercase_of(e.eref.name@);
    if name == ql {
        Some((100u64, "name-exact"@))
    } else if starts_with(name, ql) {
        Some((80u64, "name-prefix"@))
    } else if contains_text(name, ql) {
        Some((60u64, "name-substring"@))
    } else if contains_text(lowercase_of(e.title_text()), ql) {
        Some((50u64, "title-substring"@))
    } else if tag_matches(e.fm.tags@, ql) {
        Some((40u64, "tag-exact"@))
    } else if contains_text(lowercase_of(e.body@), ql) {
        Some((20u64, "body-substring"@))
    } else {
        None
    }
}

/// The entity passes the kind and tag filters.
pub open spec fn passes_filters(e: crate::model::Entity, kind: Option<Seq<char>>, tag: Option<Seq<char>>) -> bool {
    &&& (kind matches Some(k) ==> e.eref.kind@ == k)
    &&& (tag matches Some(t) ==> crate::model::strs(e.fm.tags@).contains(t))
}

/// The positions among the first `k` entities that the search hits.
pub open spec fn hits_upto(es: Seq<crate::model::Entity>, ql: Seq<char>, kind: Option<Seq<char>>, tag: Option<Seq<char>>, k: nat) -> Seq<int>
    decreases k,
{
    if k == 0 {
        seq![]
    } else {
        let before = hits_upto(es, ql, kind, tag, (k - 1) as nat);
        if passes_filters(es[k - 1], kind, tag) && match_tier(es[k - 1], ql) is Some {
            before.push(k - 1)
        } else {
            before
        }
    }
}

pub open spec fn tier_score(t: (u64, Seq<char>)) -> u64 {
    t.0
}

/// Hits rank by score (highest first), then kind, then ref.
pub open spec fn hit_key(e: crate::model::Entity, ql: Seq<char>) -> Seq<KeyPartV> {
    seq![
        KeyPartV::Num((100 - tier_score(match_tier(e, ql)->0)) as u64),
        KeyPartV::Text(e.eref.kind@),
        KeyPartV::Text(canonical(e.eref@)),
    ]
}

pub open spec fn hit_text(e: crate::model::Entity, ql: Seq<char>) -> (Seq<char>, u64, Seq<char>, Seq<char>) {
    let t = match_tier(e, ql)->0;
    (canonical(e.eref@), t.0, t.1, crate::model::first_sentence_of(e.body@))
}

/// The ranked hits, at most `limit` of them.
pub open spec fn search_results(
    es: Seq<crate::model::Entity>,
    ql: Seq<char>,
    kind: Option<Seq<char>>,
    tag: Option<Seq<char>>,
    limit: nat,
) -> Seq<(Seq<char>, u64, Seq<char>, Seq<char>)> {
    let hits = hits_upto(es, ql, kind, tag, es.len());
    let keys = hits.map_values(|m: int| hit_key(es[m], ql));
    let order = sorted_positions(keys, hits.len());
    let top = if limit < order.len() {
        order.take(limit as int)
    } else {
        order
    };
    top.map_values(|p: usize| hit_text(es[hits[p as int]], ql))
}

/// The hits among the first `k` entities are positions below `k` of
/// entities that pass the filters.
proof fn lemma_hits_pass(es: Seq<crate::model::Entity>, ql: Seq<char>, kind: Option<Seq<char>>, tag: Option<Seq<char>>, k: nat)
    ensures
        forall|i: int|
            0 <= i < hits_upto(es, ql, kind, tag, k).len() ==> 0 <= #[trigger] hits_upto(es, ql, kind, tag, k)[i] < k
                && passes_filters(es[hits_upto(es, ql, kind, tag, k)[i]], kind, tag),
    decreases k,
{
    if k > 0 {
        lemma_hits_pass(es, ql, kind, tag, (k - 1) as nat);
        let before = hits_upto(es, ql, kind, tag, (k - 1) as nat);
        assert forall|i: int| 0 <= i < hits_upto(es, ql, kind, tag, k).len() implies 0
            <= #[trigger] hits_upto(es, ql, kind, tag, k)[i] < k && passes_filters(
            es[hits_upto(es, ql, kind, tag, k)[i]],
            kind,
            tag,
        ) by {
            if i < before.len() {
                assert(hits_upto(es, ql, kind, tag, k)[i] == before[i]);
            }
        }
    }
}

/// Search filters hold of every hit: each hit is the ref of an entity of the
/// vault that has the kind asked for, when one is, and carries the tag asked
/// for, when one is.
pub proof fn lemma_search_hits_pass_filters(
    es: Seq<crate::model::Entity>,
    ql: Seq<char>,
    kind: Option<Seq<char>>,
    tag: Option<Seq<char>>,
    limit: nat,
)
    ensures
        forall|j: int|
            0 <= j < search_results(es, ql, kind, tag, limit).len() ==> exists|m: int|
                0 <= m < es.len() && (#[trigger] search_results(es, ql, kind, tag, limit)[j]).0 == canonical(
                    es[m].eref@,
                ) && (kind matches Some(k) ==> es[m].eref.kind@ == k) && (tag matches Some(t)
                    ==> crate::model::strs(es[m].fm.tags@).contains(t)),
{
    let hits = hits_upto(es, ql, kind, tag, es.len());
    let keys = hits.map_values(|m: int| hit_key(es[m], ql));
    let order = sorted_positions(keys, hits.len());
    lemma_hits_pass(es, ql, kind, tag, es.len());
    crate::sort::lemma_sorted_positions_in_range(keys, hits.len());
    let top = if limit < order.len() {
        order.take(limit as int)
    } else {
        order
    };
    let rs = search_results(es, ql, kind, tag, limit);
    assert forall|j: int| 0 <= j < rs.len() implies exists|m: int|
        0 <= m < es.len() && (#[trigger] rs[j]).0 == canonical(es[m].eref@) && (kind matches Some(k)
            ==> es[m].eref.kind@ == k) && (tag matches Some(t) ==> crate::model::strs(es[m].fm.tags@).contains(t)) by {
        assert(top[j] == order[j]);
        let p = order[j] as int;
        assert(order[j] < hits.len());
        let m = hits[p];
        assert(passes_filters(es[m], kind, tag));
        assert(rs[j] == hit_text(es[m], ql));
    }
}

pub open spec fn opt_str(v: Option<&str>) -> Option<Seq<char>> {
    match v {
        Some(s) => Some(s@),
        None => None,
    }
}

/// Does some tag, lowercased, equal `ql`?
fn any_tag_matches(tags: &Vec<String>, ql: &str) -> (r: bool)
    ensures
        r == tag_matches(tags@, ql@),
{
    let mut i: usize = 0;
    while i < tags.len()
        invariant
            i <= tags.len(),
            forall|j: int| 0 <= j < i ==> lowercase_of((#[trigger] tags@[j])@) != ql@,
        decreases tags.len() - i,
    {
        let t = to_lowercase(tags[i].as_str());
        if str_eq(t.as_str(), ql) {
            return true;
        }
        i = i + 1;
    }
    false
}

/// The score and tier on which an entity matches `ql`.
fn tier_of(e: &crate::model::Entity, ql: &str) -> (r: Option<(u64, &'static str)>)
    ensures
        match r {
            Some((s, f)) => match_tier(*e, ql@) == Some((s, f@)),
            None => match_tier(*e, ql@) is None,
        },
{
    let name = to_lowercase(e.eref.name.as_str());
    if str_eq(name.as_str(), ql) {
        Some((100, "name-exact"))
    } else if starts_with_str(name.as_str(), ql) {
        Some((80, "name-prefix"))
    } else if contains_str(name.as_str(), ql) {
        Some((60, "name-substring"))
    } else if contains_str(to_lowercase(e.title()).as_str(), ql) {
        Some((50, "title-substring"))
    } else if any_tag_matches(&e.fm.tags, ql) {
        Some((40, "tag-exact"))
    } else if contains_str(to_lowercase(e.body.as_str()).as_str(), ql) {
        Some((20, "body-substring"))
    } else {
        None
    }
}

/// Entities matching a case-insensitive query, best first: each scores by
/// the best tier it matches (name exactly 100, name prefix 80, name
/// substring 60, title substring 50, tag exactly 40, body substring 20),
/// ties broken by kind and then by ref; at most `limit` hits. `kind` and
/// `tag`, when given, restrict the entities searched.
#[verifier::rlimit(40)]
pub fn search(g: &Graph, q: &str, kind: Option<&str>, tag: Option<&str>, limit: usize) -> (r: SearchResult)
    ensures
        r.query@ == q@,
        hits_view(r.results@) == search_results(
            g.vault_spec().entities@,
            lowercase_of(q@),
            opt_str(kind),
            opt_str(tag),
            limit as nat,
        ),
{
    let ql = to_lowercase(q);
    let es = &g.vault().entities;
    let ghost ev = es@;
    let ghost kv = opt_str(kind);
    let ghost tv = opt_str(tag);
    let mut hits: Vec<(usize, u64, &'static str)> = Vec::new();
    let mut keys: Vec<SortKey> = Vec::new();
    let mut m: usize = 0;
    while m < es.len()
        invariant
            m <= es.len(),
            ev == es@,
            ev == g.vault_spec().entities@,
            kv == opt_str(kind),
            tv == opt_str(tag),
            ql@ == lowercase_of(q@),
            hits@.len() == hits_upto(ev, ql@, kv, tv, m as nat).len(),
            keys@.len() == hits@.len(),
            forall|i: int|
                0 <= i < hits@.len() ==> (#[trigger] hits@[i]).0 as int == hits_upto(ev, ql@, kv, tv, m as nat)[i]
                    && hits@[i].0 < ev.len() && match_tier(ev[hits@[i].0 as int], ql@) == Some((hits@[i].1, hits@[i].2@)),
            forall|i: int|
                0 <= i < keys@.len() ==> key_view(#[trigger] keys@[i]) == hit_key(ev[hits@[i].0 as int], ql@),
        decreases es.len() - m,
    {
        let e = &es[m];
        let ok_kind = match kind {
            Some(k) => str_eq(e.eref.kind.as_str(), k),
            None => true,
        };
        let ok_tag = match tag {
            Some(t) => crate::model::list_contains(&e.fm.tags, t),
            None => true,
        };
        let ghost before = hits_upto(ev, ql@, kv, tv, m as nat);
        proof {
            assert(ev[m as int] == *e);
            assert((kv matches Some(k) ==> e.eref.kind@ == k) == ok_kind);
            assert((tv matches Some(t) ==> crate::model::strs(e.fm.tags@).contains(t)) == ok_tag);
            assert(passes_filters(ev[m as int], kv, tv) == (ok_kind && ok_tag));
            assert(((m + 1) as nat - 1) as nat == m as nat);
        }
        let tier = if ok_kind && ok_tag {
            tier_of(e, ql.as_str())
        } else {
            None
        };
        proof {
            if ok_kind && ok_tag && tier is Some {
                assert(hits_upto(ev, ql@, kv, tv, (m + 1) as nat) == before.push(m as int));
            } else {
                assert(hits_upto(ev, ql@, kv, tv, (m + 1) as nat) == before);
            }
        }
        if ok_kind && ok_tag {
            match tier {
                Some((score, field)) => {
                    let mut key = num_key(100 - score);
                    crate::sort::push_text(&mut key, e.eref.kind.as_str());
                    crate::sort::push_text(&mut key, e.eref.to_string().as_str());
                    keys.push(key);
                    hits.push((m, score, field));
                    proof {
                        assert(hits_upto(ev, ql@, kv, tv, (m + 1) as nat) == before.push(m as int));
                        assert(key_view(keys@[keys@.len() - 1]) =~= hit_key(ev[m as int], ql@));
                    }
                },
                None => {},
            }
        }
        m = m + 1;
    }
    let ghost hs = hits_upto(ev, ql@, kv, tv, ev.len() as nat);
    let order = sort_indices(&keys);
    proof {
        assert(keys_view(keys@) =~= hs.map_values(|x: int| hit_key(ev[x], ql@)));
    }
    let count = if limit < order.len() {
        limit
    } else {
        order.len()
    };
    let mut results: Vec<SearchHit> = Vec::new();
    let mut j: usize = 0;
    while j < count
        invariant
            j <= count,
            count <= order@.len(),
            ev == g.vault_spec().entities@,
            kv == opt_str(kind),
            tv == opt_str(tag),
            ql@ == lowercase_of(q@),
            count == (if limit < order@.len() { limit as int } else { order@.len() as int }),
            ev == es@,
            is_permutation_of_range(order@, hits@.len() as int),
            order@ == sorted_positions(keys_view(keys@), keys@.len() as nat),
            hits@.len() == hs.len(),
            keys@.len() == hits@.len(),
            forall|i: int|
                0 <= i < hits@.len() ==> (#[trigger] hits@[i]).0 as int == hs[i] && hits@[i].0 < ev.len()
                    && match_tier(ev[hits@[i].0 as int], ql@) == Some((hits@[i].1, hits@[i].2@)),
            hits_view(results@) == order@.take(j as int).map_values(|p: usize| hit_text(ev[hs[p as int]], ql@)),
        decreases count - j,
    {
        let (m, score, field) = hits[order[j]];
        let e = &es[m];
        results.push(SearchHit { reference: e.eref.to_string(), score, matched: field, summary: e.first_sentence() });
        proof {
            assert(order@.take(j + 1) =~= order@.take(j as int).push(order@[j as int]));
            assert(hits_view(results@) =~= hits_view(results@.drop_last()).push(hit_view(results@.last())));
            assert(order@.take(j + 1).map_values(|p: usize| hit_text(ev[hs[p as int]], ql@)) =~= order@.take(
                j as int,
            ).map_values(|p: usize| hit_text(ev[hs[p as int]], ql@)).push(hit_text(ev[hs[order@[j as int] as int]], ql@)));
        }
        j = j + 1;
    }
    proof {
        if !(limit < order@.len()) {
            assert(order@.take(order@.len() as int) =~= order@);
        }
    }
    SearchResult { query: crate::text::owned(q), results }
}


// ───────────────────────────── get ─────────────────────────────

/// The far end of an edge, as `get` lists it.
pub struct EdgeEnd {
    pub reference: String,
    pub note: Option<String>,
}

/// An entity in full: its document and its edges both ways, grouped by
/// relation type.
pub struct GetResult {
    pub reference: String,
    pub path: String,
    pub title: String,
    pub tags: Vec<String>,
    pub lifecycle: Option<String>,
    pub extra: Vec<(String, crate::model::YamlValue)>,
    pub source: Vec<String>,
    pub body: String,
    pub outbound: Vec<(String, Vec<EdgeEnd>)>,
    pub inbound: Vec<(String, Vec<EdgeEnd>)>,
}

pub open spec fn edge_end_view(x: EdgeEnd) -> (Seq<char>, Option<Seq<char>>) {
    (x.reference@, crate::model::opt_text(x.note))
}

pub open spec fn groups_view(v: Seq<(String, Vec<EdgeEnd>)>) -> Seq<(Seq<char>, Seq<(Seq<char>, Option<Seq<char>>)>)> {
    v.map_values(|p: (String, Vec<EdgeEnd>)| (p.0@, p.1@.map_values(|x: EdgeEnd| edge_end_view(x))))
}

/// The far end of edge `id` (its target when `outgoing`, else its source) and its note.
pub open spec fn end_text(g: Graph, id: usize, outgoing: bool) -> (Seq<char>, Option<Seq<char>>) {
    let e = g.edges_spec()[id as int];
    (ref_text(g, if outgoing { e.target } else { e.source }), e.note)
}

/// The ends of the edges among the first `k` of `ids` whose relation is `rel`.
pub open spec fn ends_with_rel(g: Graph, ids: Seq<usize>, outgoing: bool, rel: Seq<char>, k: nat) -> Seq<
    (Seq<char>, Option<Seq<char>>),
>
    decreases k,
{
    if k == 0 {
        seq![]
    } else {
        let before = ends_with_rel(g, ids, outgoing, rel, (k - 1) as nat);
        if g.edges_spec()[ids[k - 1] as int].rel == rel {
            before.push(end_text(g, ids[k - 1], outgoing))
        } else {
            before
        }
    }
}

/// Each end listed for `rel` among the first `k` of `ids` is the far end
/// (target when `outgoing`, else source) and note of one of those edges of
/// type `rel`, and each such edge has its far end listed.
proof fn lemma_ends_with_rel(g: Graph, ids: Seq<usize>, outgoing: bool, rel: Seq<char>, k: nat)
    requires
        k <= ids.len(),
    ensures
        forall|x: int|
            0 <= x < ends_with_rel(g, ids, outgoing, rel, k).len() ==> exists|j: int|
                #![trigger ids[j]]
                0 <= j < k && {
                    let e = g.edges_spec()[ids[j] as int];
                    &&& e.rel == rel
                    &&& #[trigger] ends_with_rel(g, ids, outgoing, rel, k)[x] == (
                        ref_text(g, if outgoing { e.target } else { e.source }),
                        e.note,
                    )
                },
        forall|j: int|
            0 <= j < k && g.edges_spec()[(#[trigger] ids[j]) as int].rel == rel ==> ends_with_rel(
                g,
                ids,
                outgoing,
                rel,
                k,
            ).contains(
                (
                    ref_text(
                        g,
                        if outgoing {
                            g.edges_spec()[ids[j] as int].target
                        } else {
                            g.edges_spec()[ids[j] as int].source
                        },
                    ),
                    g.edges_spec()[ids[j] as int].note,
                ),
            ),
    decreases k,
{
    if k > 0 {
        lemma_ends_with_rel(g, ids, outgoing, rel, (k - 1) as nat);
        let before = ends_with_rel(g, ids, outgoing, rel, (k - 1) as nat);
        let now = ends_with_rel(g, ids, outgoing, rel, k);
        assert forall|x: int| 0 <= x < now.len() implies exists|j: int|
            #![trigger ids[j]]
            0 <= j < k && {
                let e = g.edges_spec()[ids[j] as int];
                &&& e.rel == rel
                &&& #[trigger] now[x] == (ref_text(g, if outgoing { e.target } else { e.source }), e.note)
            } by {
            if x < before.len() {
                assert(now[x] == before[x]);
            } else {
                assert(ids[k - 1] == ids[k - 1]);
            }
        }
        assert forall|j: int| 0 <= j < k && g.edges_spec()[(#[trigger] ids[j]) as int].rel == rel implies now.contains(
            (
                ref_text(
                    g,
                    if outgoing {
                        g.edges_spec()[ids[j] as int].target
                    } else {
                        g.edges_spec()[ids[j] as int].source
                    },
                ),
                g.edges_spec()[ids[j] as int].note,
            ),
        ) by {
            if j < k - 1 {
                let item = (
                    ref_text(
                        g,
                        if outgoing {
                            g.edges_spec()[ids[j] as int].target
                        } else {
                            g.edges_spec()[ids[j] as int].source
                        },
                    ),
                    g.edges_spec()[ids[j] as int].note,
                );
                assert(before.contains(item));
                let x = choose|x: int| 0 <= x < before.len() && before[x] == item;
                assert(now[x] == before[x]);
            } else {
                assert(now[now.len() - 1] == end_text(g, ids[k - 1], outgoing));
            }
        }
    }
}

/// What `get` lists for an entity: each outbound group holds, for every
/// edge of that type leaving the entity, the edge's target and note, and
/// each inbound group, for every edge of that type arriving at it, the
/// edge's source and note; nothing else is listed.
pub proof fn lemma_get_lists_far_ends(
    g: Graph,
    i: int,
    outgoing: bool,
    groups: Seq<(Seq<char>, Seq<(Seq<char>, Option<Seq<char>>)>)>,
)
    requires
        g.edges_spec().len() <= usize::MAX,
        grouped_ok(g, crate::graph::incident(g.edges_spec(), i, outgoing), outgoing, groups),
    ensures
        forall|a: int, x: int|
            0 <= a < groups.len() && 0 <= x < groups[a].1.len() ==> exists|e: int|
                #![trigger g.edges_spec()[e]]
                0 <= e < g.edges_spec().len() && {
                    let ed = g.edges_spec()[e];
                    &&& (if outgoing { ed.source == i } else { ed.target == i })
                    &&& ed.rel == groups[a].0
                    &&& #[trigger] groups[a].1[x] == (ref_text(g, if outgoing { ed.target } else { ed.source }), ed.note)
                },
        forall|e: int|
            0 <= e < g.edges_spec().len() && (if outgoing {
                (#[trigger] g.edges_spec()[e]).source == i
            } else {
                g.edges_spec()[e].target == i
            }) ==> exists|a: int|
                0 <= a < groups.len() && (#[trigger] groups[a]).0 == g.edges_spec()[e].rel && groups[a].1.contains(
                    (
                        ref_text(g, if outgoing { g.edges_spec()[e].target } else { g.edges_spec()[e].source }),
                        g.edges_spec()[e].note,
                    ),
                ),
{
    let ev = g.edges_spec();
    let ids = crate::graph::incident(ev, i, outgoing);
    crate::graph::lemma_incident_ends(ev, i, outgoing);
    assert forall|a: int, x: int| 0 <= a < groups.len() && 0 <= x < groups[a].1.len() implies exists|e: int|
        #![trigger g.edges_spec()[e]]
        0 <= e < g.edges_spec().len() && {
            let ed = g.edges_spec()[e];
            &&& (if outgoing { ed.source == i } else { ed.target == i })
            &&& ed.rel == groups[a].0
            &&& #[trigger] groups[a].1[x] == (ref_text(g, if outgoing { ed.target } else { ed.source }), ed.note)
        } by {
        let rel = groups[a].0;
        assert(groups[a].1 == ends_with_rel(g, ids, outgoing, rel, ids.len()));
        lemma_ends_with_rel(g, ids, outgoing, rel, ids.len());
        let j = choose|j: int|
            #![trigger ids[j]]
            0 <= j < ids.len() && {
                let e = ev[ids[j] as int];
                &&& e.rel == rel
                &&& #[trigger] ends_with_rel(g, ids, outgoing, rel, ids.len())[x] == (
                    ref_text(g, if outgoing { e.target } else { e.source }),
                    e.note,
                )
            };
        let e = ids[j] as int;
        assert(ev[e] == ev[e]);
    }
    assert forall|e: int|
        0 <= e < g.edges_spec().len() && (if outgoing {
            (#[trigger] g.edges_spec()[e]).source == i
        } else {
            g.edges_spec()[e].target == i
        }) implies exists|a: int|
        0 <= a < groups.len() && (#[trigger] groups[a]).0 == g.edges_spec()[e].rel && groups[a].1.contains(
            (
                ref_text(g, if outgoing { g.edges_spec()[e].target } else { g.edges_spec()[e].source }),
                g.edges_spec()[e].note,
            ),
        ) by {
        crate::graph::lemma_incident_complete(ev, i, outgoing, e);
        let j = choose|j: int| 0 <= j < ids.len() && ids[j] == e as usize;
        assert(group_names(groups).contains(ev[ids[j] as int].rel));
        let a = choose|a: int| 0 <= a < group_names(groups).len() && group_names(groups)[a] == ev[e].rel;
        assert(groups[a].0 == group_names(groups)[a]);
        lemma_ends_with_rel(g, ids, outgoing, ev[e].rel, ids.len());
        assert(groups[a].1 == ends_with_rel(g, ids, outgoing, groups[a].0, ids.len()));
    }
}

/// The relation types of the edges `ids`, in order.
pub open spec fn rels_of(g: Graph, ids: Seq<usize>) -> Seq<Seq<char>> {
    ids.map_values(|id: usize| g.edges_spec()[id as int].rel)
}

pub open spec fn group_names<T>(groups: Seq<(Seq<char>, T)>) -> Seq<Seq<char>> {
    groups.map_values(|p: (Seq<char>, T)| p.0)
}

/// `groups` lists the relation types of the edges `ids` once each, in
/// order, each with the far ends of its edges in the order of `ids`.
pub open spec fn grouped_ok(
    g: Graph,
    ids: Seq<usize>,
    outgoing: bool,
    groups: Seq<(Seq<char>, Seq<(Seq<char>, Option<Seq<char>>)>)>,
) -> bool {
    &&& forall|a: int, b: int|
        0 <= a < b < groups.len() ==> crate::text::text_lt(#[trigger] groups[a].0, #[trigger] groups[b].0)
    &&& forall|a: int| 0 <= a < groups.len() ==> rels_of(g, ids).contains((#[trigger] groups[a]).0)
    &&& forall|j: int|
        0 <= j < ids.len() ==> group_names(groups).contains(g.edges_spec()[(#[trigger] ids[j]) as int].rel)
    &&& forall|a: int|
        0 <= a < groups.len() ==> (#[trigger] groups[a]).1 == ends_with_rel(g, ids, outgoing, groups[a].0, ids.len())
}

pub open spec fn rel_key(rel: Seq<char>) -> Seq<KeyPartV> {
    seq![KeyPartV::Text(rel)]
}

proof fn lemma_rel_key(a: Seq<char>, b: Seq<char>)
    ensures
        key_lt(rel_key(a), rel_key(b)) == crate::text::text_lt(a, b),
        (rel_key(a) == rel_key(b)) == (a == b),
{
    crate::text::lemma_text_lt_irrefl(a);
    if a == b {
        crate::sort::lemma_key_lt_irrefl(rel_key(a));
    } else {
        assert(rel_key(a)[0] == KeyPartV::Text(a));
        assert(rel_key(b)[0] == KeyPartV::Text(b));
        assert(rel_key(a)[0] != rel_key(b)[0]);
    }
}

/// The far ends of the edges `ids` whose relation is `rel`, in order.
fn ends_for(g: &Graph, ids: &Vec<usize>, outgoing: bool, rel: &str) -> (ends: Vec<EdgeEnd>)
    requires
        forall|j: int| 0 <= j < ids@.len() ==> (#[trigger] ids@[j]) < g.edges_spec().len(),
    ensures
        ends@.map_values(|x: EdgeEnd| edge_end_view(x)) == ends_with_rel(*g, ids@, outgoing, rel@, ids@.len() as nat),
{
    let edges = g.edges();
    let ghost ev = g.edges_spec();
    let ghost n = g.vault_spec().entities@.len();
        let mut ends: Vec<EdgeEnd> = Vec::new();
        let mut j: usize = 0;
        while j < ids.len()
            invariant
                j <= ids.len(),
                ev == g.edges_spec(),
                crate::graph::edges_view(edges@) == ev,
                forall|q: int| 0 <= q < edges@.len() ==> (#[trigger] edges@[q]).source < n && edges@[q].target < n,
                n == g.vault_spec().entities@.len(),
                forall|q: int| 0 <= q < ids@.len() ==> (#[trigger] ids@[q]) < ev.len(),
                ends@.map_values(|x: EdgeEnd| edge_end_view(x)) == ends_with_rel(*g, ids@, outgoing, rel@, j as nat),
            decreases ids.len() - j,
        {
            let e = &edges[ids[j]];
            proof {
                assert(ev[ids@[j as int] as int] == edges@[ids@[j as int] as int]@);
            }
            if crate::text::str_eq(e.rel.as_str(), rel) {
                let other = if outgoing {
                    e.target
                } else {
                    e.source
                };
                let note = match &e.note {
                    Some(x) => Some(x.clone()),
                    None => None,
                };
                ends.push(EdgeEnd { reference: g.entity(other).eref.to_string(), note });
                proof {
                    assert(ends@.map_values(|x: EdgeEnd| edge_end_view(x)) =~= ends@.drop_last().map_values(
                        |x: EdgeEnd| edge_end_view(x),
                    ).push(edge_end_view(ends@.last())));
                }
            }
            j = j + 1;
        }
    ends
}

/// Group the edges `ids` by relation type.
#[verifier::rlimit(60)]
fn group_by_rel(g: &Graph, ids: &Vec<usize>, outgoing: bool) -> (r: Vec<(String, Vec<EdgeEnd>)>)
    requires
        forall|j: int| 0 <= j < ids@.len() ==> (#[trigger] ids@[j]) < g.edges_spec().len(),
    ensures
        grouped_ok(*g, ids@, outgoing, groups_view(r@)),
{
    let edges = g.edges();
    let ghost ev = g.edges_spec();
    let ghost n = g.vault_spec().entities@.len();
    let mut keys: Vec<SortKey> = Vec::new();
    let mut k: usize = 0;
    while k < ids.len()
        invariant
            k <= ids.len(),
            ev == g.edges_spec(),
            crate::graph::edges_view(edges@) == ev,
            forall|j: int| 0 <= j < ids@.len() ==> (#[trigger] ids@[j]) < ev.len(),
            strictly_sorted(keys_view(keys@)),
            forall|x: Seq<KeyPartV>|
                #[trigger] keys_view(keys@).contains(x) <==> exists|j: int|
                    0 <= j < k && x == rel_key(#[trigger] ev[ids@[j] as int].rel),
        decreases ids.len() - k,
    {
        let e = &edges[ids[k]];
        let mut key = crate::sort::empty_key();
        crate::sort::push_text(&mut key, e.rel.as_str());
        proof {
            assert(ev[ids@[k as int] as int] == edges@[ids@[k as int] as int]@);
            assert(key_view(key) =~= rel_key(e.rel@));
        }
        let ghost old_keys = keys_view(keys@);
        insert_key(&mut keys, key);
        proof {
            let rk = rel_key(ev[ids@[k as int] as int].rel);
            assert(rk == rel_key(e.rel@));
            assert forall|x: Seq<KeyPartV>| #[trigger] keys_view(keys@).contains(x) <==> exists|j: int|
                0 <= j < k + 1 && x == rel_key(#[trigger] ev[ids@[j] as int].rel) by {
                if keys_view(keys@).contains(x) {
                    if x == rk {
                        assert(0 <= k < k + 1 && x == rel_key(ev[ids@[k as int] as int].rel));
                    } else {
                        assert(old_keys.contains(x));
                        let j = choose|j: int| 0 <= j < k && x == rel_key(#[trigger] ev[ids@[j] as int].rel);
                        assert(0 <= j < k + 1 && x == rel_key(ev[ids@[j] as int].rel));
                    }
                }
                if exists|j: int| 0 <= j < k + 1 && x == rel_key(#[trigger] ev[ids@[j] as int].rel) {
                    let j = choose|j: int| 0 <= j < k + 1 && x == rel_key(#[trigger] ev[ids@[j] as int].rel);
                    if j < k {
                        assert(old_keys.contains(x));
                    } else {
                        assert(x == rk);
                    }
                }
            }
        }
        k = k + 1;
    }
    let mut out: Vec<(String, Vec<EdgeEnd>)> = Vec::new();
    let mut a: usize = 0;
    while a < keys.len()
        invariant
            a <= keys.len(),
            ev == g.edges_spec(),
            crate::graph::edges_view(edges@) == ev,
            forall|q: int| 0 <= q < edges@.len() ==> (#[trigger] edges@[q]).source < n && edges@[q].target < n,
            n == g.vault_spec().entities@.len(),
            forall|j: int| 0 <= j < ids@.len() ==> (#[trigger] ids@[j]) < ev.len(),
            strictly_sorted(keys_view(keys@)),
            forall|x: Seq<KeyPartV>|
                #[trigger] keys_view(keys@).contains(x) <==> exists|j: int|
                    0 <= j < ids@.len() && x == rel_key(#[trigger] ev[ids@[j] as int].rel),
            out@.len() == a,
            forall|q: int|
                0 <= q < a ==> rel_key((#[trigger] groups_view(out@)[q]).0) == keys_view(keys@)[q]
                    && groups_view(out@)[q].1 == ends_with_rel(*g, ids@, outgoing, groups_view(out@)[q].0, ids@.len() as nat),
        decreases keys.len() - a,
    {
        let ghost ka = keys_view(keys@)[a as int];
        proof {
            assert(keys_view(keys@).contains(ka));
            let j = choose|j: int| 0 <= j < ids@.len() && ka == rel_key(#[trigger] ev[ids@[j] as int].rel);
            assert(ka == key_view(keys@[a as int]));
            assert(keys@[a as int].parts@.len() == 1);
            assert(key_view(keys@[a as int])[0] == keys@[a as int].parts@[0]@);
            assert(keys@[a as int].parts@[0]@ is Text);
        }
        let rel = match &keys[a].parts[0] {
            KeyPart::Text(t) => t.clone(),
            KeyPart::Num(_) => String::new(),
        };
        proof {
            assert(key_view(keys@[a as int])[0] == keys@[a as int].parts@[0]@);
            assert(ka =~= rel_key(rel@));
        }
        let ends = ends_for(g, ids, outgoing, rel.as_str());
        let ghost old_out = out@;
        let ghost relv = rel@;
        let ghost endsv = ends@.map_values(|x: EdgeEnd| edge_end_view(x));
        out.push((rel, ends));
        proof {
            assert forall|q: int| 0 <= q < a + 1 implies rel_key((#[trigger] groups_view(out@)[q]).0) == keys_view(keys@)[q]
                && groups_view(out@)[q].1 == ends_with_rel(*g, ids@, outgoing, groups_view(out@)[q].0, ids@.len() as nat) by {
                assert(groups_view(out@)[q] == (out@[q].0@, out@[q].1@.map_values(|x: EdgeEnd| edge_end_view(x))));
                if q < a {
                    assert(out@[q] == old_out[q]);
                    assert(groups_view(old_out)[q] == (old_out[q].0@, old_out[q].1@.map_values(|x: EdgeEnd| edge_end_view(x))));
                } else {
                    assert(out@[q].0@ == relv);
                    assert(out@[q].1@.map_values(|x: EdgeEnd| edge_end_view(x)) == endsv);
                }
            }
        }
        a = a + 1;
    }
    proof {
        let gv = groups_view(out@);
        let kv = keys_view(keys@);
        assert forall|x: int, y: int| 0 <= x < y < gv.len() implies crate::text::text_lt(#[trigger] gv[x].0, #[trigger] gv[y].0) by {
            assert(key_lt(kv[x], kv[y]));
            lemma_rel_key(gv[x].0, gv[y].0);
        }
        assert forall|a: int| 0 <= a < gv.len() implies rels_of(*g, ids@).contains((#[trigger] gv[a]).0) by {
            assert(kv.contains(kv[a]));
            let j = choose|j: int| 0 <= j < ids@.len() && kv[a] == rel_key(#[trigger] ev[ids@[j] as int].rel);
            lemma_rel_key(gv[a].0, ev[ids@[j] as int].rel);
            assert(rels_of(*g, ids@)[j] == gv[a].0);
        }
        assert forall|j: int| 0 <= j < ids@.len() implies group_names(gv).contains(
            g.edges_spec()[(#[trigger] ids@[j]) as int].rel,
        ) by {
            let rel = ev[ids@[j] as int].rel;
            assert(kv.contains(rel_key(rel)));
            let a = choose|a: int| 0 <= a < kv.len() && kv[a] == rel_key(rel);
            lemma_rel_key(gv[a].0, rel);
            assert(group_names(gv)[a] == rel);
        }
        assert forall|a: int| 0 <= a < gv.len() implies (#[trigger] gv[a]).1 == ends_with_rel(*g, ids@, outgoing, gv[a].0, ids@.len() as nat) by {
            assert(rel_key(gv[a].0) == kv[a]);
        }
    }
    out
}

/// An entity's document and its edges both ways, grouped by relation type.
pub fn get(g: &Graph, eref: &EntityRef) -> (r: GetResult)
    requires
        last_index(entities_view(g.vault_spec().entities@), eref@) is Some,
    ensures
        ({
            let i = last_index(entities_view(g.vault_spec().entities@), eref@)->0;
            let e = g.vault_spec().entities@[i];
            &&& r.reference@ == canonical(eref@)
            &&& r.path@ == crate::vault::join_text(g.vault_spec().dir@, e.file@)
            &&& r.title@ == e.title_text()
            &&& crate::model::strs(r.tags@) == crate::model::strs(e.fm.tags@)
            &&& crate::model::opt_text(r.lifecycle) == crate::model::opt_text(e.fm.lifecycle)
            &&& crate::model::attrs_view(r.extra@) == crate::model::attrs_view(e.fm.extra@)
            &&& crate::model::strs(r.source@) == crate::model::strs(e.fm.source@)
            &&& r.body@ == crate::text::trim(e.body@)
            &&& grouped_ok(*g, crate::graph::incident(g.edges_spec(), i, true), true, groups_view(r.outbound@))
            &&& grouped_ok(*g, crate::graph::incident(g.edges_spec(), i, false), false, groups_view(r.inbound@))
        }),
{
    let i = g.index_of(eref).unwrap();
    let e = g.entity(i);
    let out_ids = g.out_of(i);
    let in_ids = g.inc_of(i);
    proof {
        crate::graph::lemma_incident_range(g.edges_spec(), i as int, true);
        crate::graph::lemma_incident_range(g.edges_spec(), i as int, false);
    }
    let outbound = group_by_rel(g, out_ids, true);
    let inbound = group_by_rel(g, in_ids, false);
    let lifecycle = match &e.fm.lifecycle {
        Some(l) => Some(l.clone()),
        None => None,
    };
    GetResult {
        reference: eref.to_string(),
        path: crate::vault::join_path_text(g.vault().dir.as_str(), e.file.as_str()),
        title: crate::text::owned(e.title()),
        tags: crate::model::clone_list(&e.fm.tags),
        lifecycle,
        extra: crate::model::duplicate_attrs(&e.fm.extra),
        source: crate::model::clone_list(&e.fm.source),
        body: crate::text::trimmed(e.body.as_str()),
        outbound,
        inbound,
    }
}


// ───────────────────────────── architecture ─────────────────────────────

/// How many entities have a kind.
pub struct KindCount {
    pub kind: String,
    pub count: usize,
}

/// How many edges of a relation type join two kinds.
pub struct KindEdge {
    pub from_kind: String,
    pub rel: String,
    pub to_kind: String,
    pub count: usize,
}

/// The kind-level overview of the graph.
pub struct ArchitectureResult {
    pub project: String,
    pub entities: usize,
    pub relations: usize,
    pub kinds: Vec<KindCount>,
    pub edges: Vec<KindEdge>,
}

pub open spec fn kind_of(g: Graph, i: int) -> Seq<char> {
    g.vault_spec().entities@[i].eref.kind@
}

/// One key per entity: its kind.
pub open spec fn kind_keys(g: Graph) -> Seq<Seq<KeyPartV>> {
    Seq::new(g.vault_spec().entities@.len(), |i: int| seq![KeyPartV::Text(kind_of(g, i))])
}

/// One key per edge: the kinds it joins and its relation, in the order
/// (source kind, relation, target kind).
pub open spec fn edge_kind_keys(g: Graph) -> Seq<Seq<KeyPartV>> {
    Seq::new(
        g.edges_spec().len(),
        |j: int|
            seq![
                KeyPartV::Text(kind_of(g, g.edges_spec()[j].source)),
                KeyPartV::Text(g.edges_spec()[j].rel),
                KeyPartV::Text(kind_of(g, g.edges_spec()[j].target)),
            ],
    )
}

pub open spec fn kind_count_view(x: KindCount) -> (Seq<char>, nat) {
    (x.kind@, x.count as nat)
}

pub open spec fn kind_edge_view(x: KindEdge) -> (Seq<char>, Seq<char>, Seq<char>, nat) {
    (x.from_kind@, x.rel@, x.to_kind@, x.count as nat)
}

pub open spec fn kind_counts_view(v: Seq<KindCount>) -> Seq<(Seq<char>, nat)> {
    v.map_values(|x: KindCount| kind_count_view(x))
}

pub open spec fn kind_edges_view(v: Seq<KindEdge>) -> Seq<(Seq<char>, Seq<char>, Seq<char>, nat)> {
    v.map_values(|x: KindEdge| kind_edge_view(x))
}

/// The rows a tally of entity kinds stands for.
pub open spec fn kind_rows(g: Graph, t: Seq<(usize, usize)>) -> Seq<(Seq<char>, nat)> {
    t.map_values(|p: (usize, usize)| (kind_of(g, p.0 as int), p.1 as nat))
}

/// The rows a tally of edge kinds stands for.
pub open spec fn kind_edge_rows(g: Graph, t: Seq<(usize, usize)>) -> Seq<(Seq<char>, Seq<char>, Seq<char>, nat)> {
    t.map_values(
        |p: (usize, usize)|
            (
                kind_of(g, g.edges_spec()[p.0 as int].source),
                g.edges_spec()[p.0 as int].rel,
                kind_of(g, g.edges_spec()[p.0 as int].target),
                p.1 as nat,
            ),
    )
}

/// The project's display name: its title, else its name.
pub open spec fn project_text(g: Graph) -> Seq<char> {
    match g.vault_spec().schema.title {
        Some(t) => t@,
        None => g.vault_spec().schema.name@,
    }
}

/// The kind-level overview: entities per kind, by kind; edges per (source
/// kind, relation, target kind), in that order.
#[verifier::rlimit(40)]
pub fn architecture(g: &Graph) -> (r: ArchitectureResult)
    ensures
        r.project@ == project_text(*g),
        r.entities == g.vault_spec().entities@.len(),
        r.relations == g.edges_spec().len(),
        exists|t: Seq<(usize, usize)>|
            #[trigger] tally_ok(kind_keys(*g), t) && kind_counts_view(r.kinds@) == kind_rows(*g, t),
        exists|t: Seq<(usize, usize)>|
            #[trigger] tally_ok(edge_kind_keys(*g), t) && kind_edges_view(r.edges@) == kind_edge_rows(*g, t),
{
    let v = g.vault();
    let es = &v.entities;
    let edges = g.edges();
    let mut kkeys: Vec<SortKey> = Vec::new();
    let mut i: usize = 0;
    while i < es.len()
        invariant
            i <= es.len(),
            *es == g.vault_spec().entities,
            kkeys@.len() == i,
            forall|q: int| 0 <= q < i ==> key_view(#[trigger] kkeys@[q]) == kind_keys(*g)[q],
        decreases es.len() - i,
    {
        let mut k = empty_key();
        push_text(&mut k, es[i].eref.kind.as_str());
        kkeys.push(k);
        proof {
            assert(key_view(kkeys@[i as int]) =~= kind_keys(*g)[i as int]);
        }
        i = i + 1;
    }
    proof {
        assert(keys_view(kkeys@) =~= kind_keys(*g));
    }
    let kt = tally(&kkeys);
    let mut kinds: Vec<KindCount> = Vec::new();
    let mut a: usize = 0;
    while a < kt.len()
        invariant
            a <= kt.len(),
            *es == g.vault_spec().entities,
            tally_ok(kind_keys(*g), kt@),
            kind_keys(*g).len() == es@.len(),
            kind_counts_view(kinds@) == kind_rows(*g, kt@.take(a as int)),
        decreases kt.len() - a,
    {
        let (first, count) = kt[a];
        proof {
            assert(kt@[a as int].0 < kind_keys(*g).len());
        }
        kinds.push(KindCount { kind: es[first].eref.kind.clone(), count });
        proof {
            assert(kt@.take(a + 1) =~= kt@.take(a as int).push(kt@[a as int]));
            assert(kind_counts_view(kinds@) =~= kind_counts_view(kinds@.drop_last()).push(kind_count_view(kinds@.last())));
            assert(kind_rows(*g, kt@.take(a + 1)) =~= kind_rows(*g, kt@.take(a as int)).push((kind_of(*g, first as int), count as nat)));
        }
        a = a + 1;
    }
    proof {
        assert(kt@.take(kt@.len() as int) =~= kt@);
    }
    let mut ekeys: Vec<SortKey> = Vec::new();
    let mut j: usize = 0;
    while j < edges.len()
        invariant
            j <= edges.len(),
            *es == g.vault_spec().entities,
            crate::graph::edges_view(edges@) == g.edges_spec(),
            forall|q: int| 0 <= q < edges@.len() ==> (#[trigger] edges@[q]).source < es@.len() && edges@[q].target < es@.len(),
            ekeys@.len() == j,
            forall|q: int| 0 <= q < j ==> key_view(#[trigger] ekeys@[q]) == edge_kind_keys(*g)[q],
        decreases edges.len() - j,
    {
        let e = &edges[j];
        let mut k = empty_key();
        push_text(&mut k, es[e.source].eref.kind.as_str());
        push_text(&mut k, e.rel.as_str());
        push_text(&mut k, es[e.target].eref.kind.as_str());
        ekeys.push(k);
        proof {
            assert(g.edges_spec()[j as int] == edges@[j as int]@);
            assert(key_view(ekeys@[j as int]) =~= edge_kind_keys(*g)[j as int]);
        }
        j = j + 1;
    }
    proof {
        assert(keys_view(ekeys@) =~= edge_kind_keys(*g));
    }
    let et = tally(&ekeys);
    let mut out_edges: Vec<KindEdge> = Vec::new();
    let mut b: usize = 0;
    while b < et.len()
        invariant
            b <= et.len(),
            *es == g.vault_spec().entities,
            crate::graph::edges_view(edges@) == g.edges_spec(),
            forall|q: int| 0 <= q < edges@.len() ==> (#[trigger] edges@[q]).source < es@.len() && edges@[q].target < es@.len(),
            tally_ok(edge_kind_keys(*g), et@),
            edge_kind_keys(*g).len() == edges@.len(),
            kind_edges_view(out_edges@) == kind_edge_rows(*g, et@.take(b as int)),
        decreases et.len() - b,
    {
        let (first, count) = et[b];
        proof {
            assert(et@[b as int].0 < edge_kind_keys(*g).len());
            assert(g.edges_spec()[first as int] == edges@[first as int]@);
        }
        let e = &edges[first];
        out_edges.push(
            KindEdge {
                from_kind: es[e.source].eref.kind.clone(),
                rel: e.rel.clone(),
                to_kind: es[e.target].eref.kind.clone(),
                count,
            },
        );
        proof {
            assert(et@.take(b + 1) =~= et@.take(b as int).push(et@[b as int]));
            assert(kind_edges_view(out_edges@) =~= kind_edges_view(out_edges@.drop_last()).push(kind_edge_view(out_edges@.last())));
            assert(kind_edge_rows(*g, et@.take(b + 1)) =~= kind_edge_rows(*g, et@.take(b as int)).push(
                (
                    kind_of(*g, g.edges_spec()[first as int].source),
                    g.edges_spec()[first as int].rel,
                    kind_of(*g, g.edges_spec()[first as int].target),
                    count as nat,
                ),
            ));
        }
        b = b + 1;
    }
    proof {
        assert(et@.take(et@.len() as int) =~= et@);
    }
    let project = match &v.schema.title {
        Some(t) => t.clone(),
        None => v.schema.name.clone(),
    };
    proof {
        assert(crate::graph::edges_view(edges@).len() == edges@.len());
    }
    proof {
        assert(tally_ok(kind_keys(*g), kt@));
        assert(tally_ok(edge_kind_keys(*g), et@));
    }
    ArchitectureResult { project, entities: es.len(), relations: edges.len(), kinds, edges: out_edges }
}


// ───────────────────────────── schema ─────────────────────────────

/// The schema, the agent's first stop before writing: kinds, relations and
/// the project's charter, as declared.
pub fn schema(g: &Graph) -> (r: crate::model::Schema)
    ensures
        r@ == g.vault_spec().schema@,
{
    g.vault().schema.duplicate()
}

} // verus!
