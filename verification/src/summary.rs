//! The summary: the block a harness injects into an agent's context. It is
//! tiered to a token budget: the header, charter, kinds and the closing
//! discipline lines always come; relation types, recent changes and per-kind
//! name lists join as the budget allows, the largest list losing names first
//! with an explicit `…+N more`.

use vstd::prelude::*;
use crate::diag::{decimal, decimal_string};
use crate::model::{is_wide, is_wide_char, lines_of, strs, Entity};
use crate::text::{owned, concat, concat3};
use crate::sort::{key_view, keys_view, sorted_positions, tally, tally_ok, KeyPartV, SortKey};

verus! {

/// The budget used when none is given.
pub const DEFAULT_BUDGET: usize = 1200;

// ───────────────────────────── tokens ─────────────────────────────

/// How many of the first `k` chars are ASCII, wide (CJK) and other.
pub open spec fn char_classes(s: Seq<char>, k: nat) -> (nat, nat, nat)
    decreases k,
{
    if k == 0 {
        (0, 0, 0)
    } else {
        let (a, w, o) = char_classes(s, (k - 1) as nat);
        let c = s[k - 1];
        if (c as u32) < 128 {
            (a + 1, w, o)
        } else if is_wide_char(c) {
            (a, w + 1, o)
        } else {
            (a, w, o + 1)
        }
    }
}

pub open spec fn ceil_div(n: nat, d: nat) -> nat
    recommends
        d > 0,
{
    ((n + d - 1) / (d as int)) as nat
}

/// The token estimate: ASCII about four chars a token, CJK one, the rest two.
pub open spec fn token_estimate(s: Seq<char>) -> nat {
    let (a, w, o) = char_classes(s, s.len());
    ceil_div(a, 4) + w + ceil_div(o, 2)
}

/// A CJK-aware token estimate: ASCII ≈ 4 chars a token, CJK ≈ 1, the rest ≈ 2
/// (heuristics calibrated on ASCII undercount CJK badly).
pub fn estimate_tokens(s: &str) -> (r: usize)
    ensures
        r == token_estimate(s@),
{
    let v = crate::text::chars_of(s);
    let mut ascii: usize = 0;
    let mut wide: usize = 0;
    let mut other: usize = 0;
    let mut i: usize = 0;
    while i < v.len()
        invariant
            i <= v.len(),
            v.len() <= isize::MAX,
            v@ == s@,
            (ascii as nat, wide as nat, other as nat) == char_classes(s@, i as nat),
            ascii + wide + other == i,
        decreases v.len() - i,
    {
        let c = v[i];
        if (c as u32) < 128 {
            ascii = ascii + 1;
        } else if is_wide(c) {
            wide = wide + 1;
        } else {
            other = other + 1;
        }
        i = i + 1;
    }
    ascii / 4 + (if ascii % 4 > 0 { 1 } else { 0 }) + wide + other / 2 + (if other % 2 > 0 { 1 } else { 0 })
}

// ───────────────────────────── joining ─────────────────────────────

/// The parts joined by `sep`.
pub open spec fn join_with(parts: Seq<Seq<char>>, sep: Seq<char>) -> Seq<char>
    decreases parts.len(),
{
    if parts.len() == 0 {
        seq![]
    } else if parts.len() == 1 {
        parts[0]
    } else {
        join_with(parts.drop_last(), sep) + sep + parts.last()
    }
}

/// `parts.join(sep)`.
pub fn join_strings(parts: &Vec<String>, sep: &str) -> (r: String)
    ensures
        r@ == join_with(strs(parts@), sep@),
{
    let ghost ps = strs(parts@);
    let mut out = String::new();
    let mut i: usize = 0;
    while i < parts.len()
        invariant
            i <= parts.len(),
            ps == strs(parts@),
            out@ == join_with(ps.take(i as int), sep@),
        decreases parts.len() - i,
    {
        proof {
            assert(ps.take(i + 1).drop_last() =~= ps.take(i as int));
            assert(ps.take(i + 1).last() == parts@[i as int]@);
            if i == 0 {
                assert(ps.take(1) =~= seq![parts@[0]@]);
                assert(out@ =~= Seq::<char>::empty());
            }
        }
        if i > 0 {
            out.append(sep);
        }
        out.append(parts[i].as_str());
        proof {
            if i == 0 {
                assert(out@ =~= parts@[0]@);
            }
        }
        i = i + 1;
    }
    proof {
        assert(ps.take(parts@.len() as int) =~= ps);
    }
    out
}

/// `s.lines()`: the lines of a text.
pub fn split_lines(s: &str) -> (r: Vec<String>)
    ensures
        strs(r@) == lines_of(s@),
{
    let v = crate::text::chars_of(s);
    let mut out: Vec<String> = Vec::new();
    let mut start: usize = 0;
    let mut i: usize = 0;
    proof {
        assert(s@.skip(0) =~= s@);
    }
    while i < v.len()
        invariant
            start <= i <= v.len(),
            v@ == s@,
            lines_of(s@) == strs(out@) + lines_of(s@.skip(start as int)),
            forall|j: int| start <= j < i ==> v@[j] != '\n',
        decreases v.len() - i,
    {
        if v[i] == '\n' {
            let ghost rest = s@.skip(start as int);
            proof {
                crate::text::lemma_first_index(rest, '\n');
                assert(rest[i - start] == '\n');
                assert forall|j: int| 0 <= j < i - start implies rest[j] != '\n' by {
                    assert(rest[j] == v@[start + j]);
                }
                assert(crate::text::first_index(rest, '\n') == Some(i - start)) by {
                    match crate::text::first_index(rest, '\n') {
                        Some(k) => {
                            if k < i - start {
                                assert(rest[k] != '\n');
                            }
                        },
                        None => {},
                    }
                }
                assert(rest.skip(i - start + 1) =~= s@.skip(i + 1));
                assert(rest.take(i - start) =~= v@.subrange(start as int, i as int));
            }
            let mut end = i;
            if end > start && v[end - 1] == '\r' {
                end = end - 1;
            }
            let line = crate::text::string_of_range(&v, start, end);
            proof {
                assert(line@ =~= crate::model::strip_cr(rest.take(i - start)));
            }
            out.push(line);
            proof {
                assert(strs(out@) =~= strs(out@.drop_last()).push(line@));
            }
            start = i + 1;
        }
        i = i + 1;
    }
    if start < v.len() {
        let ghost rest = s@.skip(start as int);
        proof {
            crate::text::lemma_first_index(rest, '\n');
            assert forall|j: int| 0 <= j < rest.len() implies rest[j] != '\n' by {
                assert(rest[j] == v@[start + j]);
            }
            match crate::text::first_index(rest, '\n') {
                Some(k) => {
                    assert(rest[k] != '\n');
                },
                None => {},
            }
        }
        let line = crate::text::string_of_range(&v, start, v.len());
        proof {
            assert(line@ =~= rest);
        }
        out.push(line);
        proof {
            assert(strs(out@) =~= strs(out@.drop_last()).push(line@));
        }
    } else {
        proof {
            assert(s@.skip(start as int) =~= Seq::<char>::empty());
        }
    }
    out
}


// ───────────────────────────── what the summary lists ─────────────────────────────

/// One key per entity: its kind.
pub open spec fn kind_keys(es: Seq<Entity>) -> Seq<Seq<KeyPartV>> {
    es.map_values(|e: Entity| seq![KeyPartV::Text(e.eref.kind@)])
}

/// The positions of the first `k` entities of kind `kind`, ascending.
pub open spec fn kind_positions(es: Seq<Entity>, kind: Seq<char>, k: nat) -> Seq<int>
    decreases k,
{
    if k == 0 {
        seq![]
    } else {
        let before = kind_positions(es, kind, (k - 1) as nat);
        if es[k - 1].eref.kind@ == kind {
            before.push(k - 1)
        } else {
            before
        }
    }
}

/// The names of the entities of kind `kind`, sorted (stably).
pub open spec fn sorted_names(es: Seq<Entity>, kind: Seq<char>) -> Seq<Seq<char>> {
    let idx = kind_positions(es, kind, es.len());
    let keys = idx.map_values(|i: int| seq![KeyPartV::Text(es[i].eref.name@)]);
    sorted_positions(keys, idx.len()).map_values(|p: usize| es[idx[p as int]].eref.name@)
}

/// The names of the entities of kind `kind`, sorted.
fn names_of_kind(es: &Vec<Entity>, kind: &str) -> (r: Vec<String>)
    ensures
        strs(r@) == sorted_names(es@, kind@),
{
    let ghost idxs = kind_positions(es@, kind@, es@.len() as nat);
    let mut idx: Vec<usize> = Vec::new();
    let mut keys: Vec<SortKey> = Vec::new();
    let mut i: usize = 0;
    while i < es.len()
        invariant
            i <= es.len(),
            idx@.len() == kind_positions(es@, kind@, i as nat).len(),
            keys@.len() == idx@.len(),
            forall|q: int| 0 <= q < idx@.len() ==> (#[trigger] idx@[q]) as int == kind_positions(es@, kind@, i as nat)[q]
                && idx@[q] < es@.len(),
            forall|q: int| 0 <= q < keys@.len() ==> key_view(#[trigger] keys@[q]) == seq![KeyPartV::Text(es@[idx@[q] as int].eref.name@)],
        decreases es.len() - i,
    {
        if crate::text::str_eq(es[i].eref.kind.as_str(), kind) {
            let mut k = crate::sort::empty_key();
            crate::sort::push_text(&mut k, es[i].eref.name.as_str());
            keys.push(k);
            idx.push(i);
            proof {
                assert(key_view(keys@[keys@.len() - 1]) =~= seq![KeyPartV::Text(es@[i as int].eref.name@)]);
            }
        }
        i = i + 1;
    }
    let order = crate::sort::sort_indices(&keys);
    proof {
        assert(keys_view(keys@) =~= idxs.map_values(|i: int| seq![KeyPartV::Text(es@[i].eref.name@)]));
    }
    let mut out: Vec<String> = Vec::new();
    let mut j: usize = 0;
    while j < order.len()
        invariant
            j <= order.len(),
            crate::sort::is_permutation_of_range(order@, idx@.len() as int),
            idx@.len() == idxs.len(),
            forall|q: int| 0 <= q < idx@.len() ==> (#[trigger] idx@[q]) as int == idxs[q] && idx@[q] < es@.len(),
            strs(out@) == order@.take(j as int).map_values(|p: usize| es@[idxs[p as int]].eref.name@),
        decreases order.len() - j,
    {
        out.push(es[idx[order[j]]].eref.name.clone());
        proof {
            assert(strs(out@) =~= strs(out@.drop_last()).push(out@.last()@));
            assert(order@.take(j + 1) =~= order@.take(j as int).push(order@[j as int]));
            assert(order@.take(j + 1).map_values(|p: usize| es@[idxs[p as int]].eref.name@) =~= order@.take(j as int).map_values(
                |p: usize| es@[idxs[p as int]].eref.name@,
            ).push(es@[idxs[order@[j as int] as int]].eref.name@));
        }
        j = j + 1;
    }
    proof {
        assert(order@.take(order@.len() as int) =~= order@);
    }
    out
}

/// The kinds of the entities, each once, in order, with their counts and
/// sorted names.
pub struct KindList {
    pub kind: String,
    pub count: usize,
    pub names: Vec<String>,
}

pub open spec fn kind_list_view(x: KindList) -> (Seq<char>, nat, Seq<Seq<char>>) {
    (x.kind@, x.count as nat, strs(x.names@))
}

pub open spec fn kind_lists_view(v: Seq<KindList>) -> Seq<(Seq<char>, nat, Seq<Seq<char>>)> {
    v.map_values(|x: KindList| kind_list_view(x))
}

/// The rows a tally of entity kinds stands for.
pub open spec fn kind_rows(es: Seq<Entity>, t: Seq<(usize, usize)>) -> Seq<(Seq<char>, nat, Seq<Seq<char>>)> {
    t.map_values(|p: (usize, usize)| (es[p.0 as int].eref.kind@, p.1 as nat, sorted_names(es, es[p.0 as int].eref.kind@)))
}

fn kind_lists(es: &Vec<Entity>) -> (r: Vec<KindList>)
    ensures
        exists|t: Seq<(usize, usize)>| #[trigger] tally_ok(kind_keys(es@), t) && kind_lists_view(r@) == kind_rows(es@, t),
{
    let mut keys: Vec<SortKey> = Vec::new();
    let mut i: usize = 0;
    while i < es.len()
        invariant
            i <= es.len(),
            keys@.len() == i,
            forall|q: int| 0 <= q < i ==> key_view(#[trigger] keys@[q]) == kind_keys(es@)[q],
        decreases es.len() - i,
    {
        let mut k = crate::sort::empty_key();
        crate::sort::push_text(&mut k, es[i].eref.kind.as_str());
        keys.push(k);
        proof {
            assert(key_view(keys@[i as int]) =~= kind_keys(es@)[i as int]);
        }
        i = i + 1;
    }
    proof {
        assert(keys_view(keys@) =~= kind_keys(es@));
    }
    let t = tally(&keys);
    let mut out: Vec<KindList> = Vec::new();
    let mut a: usize = 0;
    while a < t.len()
        invariant
            a <= t.len(),
            tally_ok(kind_keys(es@), t@),
            kind_keys(es@).len() == es@.len(),
            kind_lists_view(out@) == kind_rows(es@, t@.take(a as int)),
        decreases t.len() - a,
    {
        let (first, count) = t[a];
        proof {
            assert(t@[a as int].0 < kind_keys(es@).len());
        }
        let kind = es[first].eref.kind.clone();
        let names = names_of_kind(es, kind.as_str());
        out.push(KindList { kind, count, names });
        proof {
            assert(t@.take(a + 1) =~= t@.take(a as int).push(t@[a as int]));
            assert(kind_lists_view(out@) =~= kind_lists_view(out@.drop_last()).push(kind_list_view(out@.last())));
            assert(kind_rows(es@, t@.take(a + 1)) =~= kind_rows(es@, t@.take(a as int)).push(
                (es@[first as int].eref.kind@, count as nat, sorted_names(es@, es@[first as int].eref.kind@)),
            ));
        }
        a = a + 1;
    }
    proof {
        assert(t@.take(t@.len() as int) =~= t@);
    }
    out
}


/// Every relation group of every entity, in order: its type and how many
/// entries it lists.
pub open spec fn groups_upto(es: Seq<Entity>, k: nat) -> Seq<(Seq<char>, nat)>
    decreases k,
{
    if k == 0 {
        seq![]
    } else {
        groups_upto(es, (k - 1) as nat) + es[k - 1].fm.relations@.map_values(
            |p: (String, Vec<crate::model::RelEntry>)| (p.0@, p.1@.len()),
        )
    }
}

pub open spec fn groups_of(es: Seq<Entity>) -> Seq<(Seq<char>, nat)> {
    groups_upto(es, es.len())
}

/// The entries over the first `k` groups (of type `rel`, or of any type when `rel` is `None`).
pub open spec fn entries_total(gs: Seq<(Seq<char>, nat)>, rel: Option<Seq<char>>, k: nat) -> nat
    decreases k,
{
    if k == 0 {
        0
    } else {
        entries_total(gs, rel, (k - 1) as nat) + if rel is None || rel == Some(gs[k - 1].0) {
            gs[k - 1].1
        } else {
            0
        }
    }
}

proof fn lemma_total_le(gs: Seq<(Seq<char>, nat)>, rel: Seq<char>, k: nat)
    ensures
        entries_total(gs, Some(rel), k) <= entries_total(gs, None, k),
    decreases k,
{
    if k > 0 {
        lemma_total_le(gs, rel, (k - 1) as nat);
    }
}

proof fn lemma_total_mono(gs: Seq<(Seq<char>, nat)>, rel: Option<Seq<char>>, k: nat, m: nat)
    requires
        k <= m,
    ensures
        entries_total(gs, rel, k) <= entries_total(gs, rel, m),
    decreases m,
{
    if m > k {
        lemma_total_mono(gs, rel, k, (m - 1) as nat);
    }
}

/// Relation types rank by entries (most first), then by name.
pub open spec fn rel_rank_key(gs: Seq<(Seq<char>, nat)>, rel: Seq<char>) -> Seq<KeyPartV> {
    seq![KeyPartV::Num((u64::MAX - entries_total(gs, Some(rel), gs.len())) as u64), KeyPartV::Text(rel)]
}

/// The relation types in rank order with their entry counts, for a tally
/// `t` of the groups' types.
pub open spec fn rel_rows(gs: Seq<(Seq<char>, nat)>, t: Seq<(usize, usize)>) -> Seq<(Seq<char>, nat)> {
    let names = t.map_values(|p: (usize, usize)| gs[p.0 as int].0);
    let keys = names.map_values(|r: Seq<char>| rel_rank_key(gs, r));
    sorted_positions(keys, names.len()).map_values(|q: usize| (names[q as int], entries_total(gs, Some(names[q as int]), gs.len())))
}

pub open spec fn group_keys(gs: Seq<(Seq<char>, nat)>) -> Seq<Seq<KeyPartV>> {
    gs.map_values(|g: (Seq<char>, nat)| seq![KeyPartV::Text(g.0)])
}

/// `es2` is `es` with one more entry `x` in the `g`-th relation group of the
/// `i`-th entity, and nothing else about relations changed.
pub open spec fn one_more_entry(es: Seq<Entity>, es2: Seq<Entity>, i: int, g: int, x: crate::model::RelEntry) -> bool {
    let a = es[i].fm.relations@;
    let b = es2[i].fm.relations@;
    &&& es2.len() == es.len()
    &&& 0 <= i < es.len()
    &&& 0 <= g < a.len()
    &&& forall|j: int| 0 <= j < es.len() && j != i ==> (#[trigger] es2[j]).fm.relations@ == es[j].fm.relations@
    &&& b.len() == a.len()
    &&& forall|h: int| 0 <= h < a.len() && h != g ==> #[trigger] b[h] == a[h]
    &&& b[g].0@ == a[g].0@
    &&& b[g].1@ == a[g].1@.push(x)
}

proof fn lemma_groups_upto_len(es: Seq<Entity>, es2: Seq<Entity>, k: nat)
    requires
        k <= es.len(),
        es2.len() == es.len(),
        forall|j: int| 0 <= j < es.len() ==> (#[trigger] es2[j]).fm.relations@.len() == es[j].fm.relations@.len(),
    ensures
        groups_upto(es2, k).len() == groups_upto(es, k).len(),
    decreases k,
{
    if k > 0 {
        lemma_groups_upto_len(es, es2, (k - 1) as nat);
    }
}

/// Past the changed entity, the groups differ only in the changed group,
/// which counts one entry more.
proof fn lemma_groups_one_more(es: Seq<Entity>, es2: Seq<Entity>, i: int, g: int, x: crate::model::RelEntry, k: nat)
    requires
        one_more_entry(es, es2, i, g, x),
        k <= es.len(),
    ensures
        ({
            let p = groups_upto(es, i as nat).len() + g;
            let gs = groups_upto(es, k);
            if k <= i {
                groups_upto(es2, k) == gs
            } else {
                &&& 0 <= p < gs.len()
                &&& groups_upto(es2, k) == gs.update(p, (gs[p].0, gs[p].1 + 1))
            }
        }),
    decreases k,
{
    if k > 0 {
        lemma_groups_one_more(es, es2, i, g, x, (k - 1) as nat);
        let f = |q: (String, Vec<crate::model::RelEntry>)| (q.0@, q.1@.len());
        let prev = groups_upto(es, (k - 1) as nat);
        let prev2 = groups_upto(es2, (k - 1) as nat);
        let j = k - 1;
        if j != i {
            assert(es2[j].fm.relations@ == es[j].fm.relations@);
            assert(es2[j].fm.relations@.map_values(f) == es[j].fm.relations@.map_values(f));
        }
        if k > i + 1 {
            lemma_groups_upto_len(es, es2, i as nat);
            let p = groups_upto(es, i as nat).len() + g;
            lemma_groups_upto_len(es, es2, (k - 1) as nat);
            assert(groups_upto(es, k) == prev + es[j].fm.relations@.map_values(f));
            assert(groups_upto(es2, k) == prev2 + es2[j].fm.relations@.map_values(f));
            assert(groups_upto(es2, k) =~= groups_upto(es, k).update(p, (groups_upto(es, k)[p].0, groups_upto(es, k)[p].1 + 1)));
        } else if k == i + 1 {
            let a = es[i].fm.relations@;
            let b = es2[i].fm.relations@;
            assert(prev2 == prev);
            let p = prev.len() + g;
            assert(b.map_values(f) =~= a.map_values(f).update(g, (a.map_values(f)[g].0, a.map_values(f)[g].1 + 1))) by {
                assert forall|h: int| 0 <= h < a.len() implies b.map_values(f)[h] == a.map_values(f).update(
                    g,
                    (a.map_values(f)[g].0, a.map_values(f)[g].1 + 1),
                )[h] by {
                    if h != g {
                        assert(b[h] == a[h]);
                    }
                }
            }
            assert(groups_upto(es, k) == prev + a.map_values(f));
            assert(groups_upto(es2, k) == prev + b.map_values(f));
            assert(groups_upto(es2, k) =~= groups_upto(es, k).update(p, (groups_upto(es, k)[p].0, groups_upto(es, k)[p].1 + 1)));
        }
    }
}

proof fn lemma_total_bump(gs: Seq<(Seq<char>, nat)>, p: int, rel: Option<Seq<char>>, k: nat)
    requires
        0 <= p < gs.len(),
        k <= gs.len(),
    ensures
        entries_total(gs.update(p, (gs[p].0, gs[p].1 + 1)), rel, k) == entries_total(gs, rel, k) + if k > p && (
        rel is None || rel == Some(gs[p].0)) {
            1nat
        } else {
            0nat
        },
    decreases k,
{
    if k > 0 {
        lemma_total_bump(gs, p, rel, (k - 1) as nat);
    }
}

/// One more relation entry in the vault's frontmatter counts once: the
/// summary's total of relation entries grows by exactly one, and so does the
/// count of that entry's relation type, while every other type's count stays.
pub proof fn lemma_one_more_entry_counts_once(
    es: Seq<Entity>,
    es2: Seq<Entity>,
    i: int,
    g: int,
    x: crate::model::RelEntry,
    rel: Option<Seq<char>>,
)
    requires
        one_more_entry(es, es2, i, g, x),
    ensures
        entries_total(groups_of(es2), rel, groups_of(es2).len()) == entries_total(groups_of(es), rel, groups_of(es).len())
            + if rel is None || rel == Some(es[i].fm.relations@[g].0@) {
            1nat
        } else {
            0nat
        },
{
    let n = es.len() as nat;
    lemma_groups_one_more(es, es2, i, g, x, n);
    let gs = groups_upto(es, n);
    let p = groups_upto(es, i as nat).len() + g;
    lemma_total_bump(gs, p, rel, gs.len());
    lemma_group_at(es, i, g);
}

/// The `g`-th relation group of the `i`-th entity stands, with its type and
/// entry count, right after the groups of the entities before it.
proof fn lemma_group_at(es: Seq<Entity>, i: int, g: int)
    requires
        0 <= i < es.len(),
        0 <= g < es[i].fm.relations@.len(),
    ensures
        groups_upto(es, es.len() as nat)[groups_upto(es, i as nat).len() + g] == (
            es[i].fm.relations@[g].0@,
            es[i].fm.relations@[g].1@.len(),
        ),
{
    lemma_groups_prefix(es, (i + 1) as nat, es.len() as nat);
    let f = |q: (String, Vec<crate::model::RelEntry>)| (q.0@, q.1@.len());
    assert(groups_upto(es, (i + 1) as nat) == groups_upto(es, i as nat) + es[i].fm.relations@.map_values(f));
}

proof fn lemma_groups_prefix(es: Seq<Entity>, k: nat, m: nat)
    requires
        k <= m <= es.len(),
    ensures
        groups_upto(es, k).len() <= groups_upto(es, m).len(),
        forall|q: int| 0 <= q < groups_upto(es, k).len() ==> #[trigger] groups_upto(es, m)[q] == groups_upto(es, k)[q],
    decreases m,
{
    if m > k {
        lemma_groups_prefix(es, k, (m - 1) as nat);
    }
}

/// A vault whose relation groups list no entries has no relation entries to
/// count: the summary's total, and each type's count, is zero.
pub proof fn lemma_no_entries_count_zero(es: Seq<Entity>, rel: Option<Seq<char>>)
    requires
        forall|i: int, g: int|
            0 <= i < es.len() && 0 <= g < es[i].fm.relations@.len() ==> (#[trigger] es[i].fm.relations@[g]).1@.len() == 0,
    ensures
        entries_total(groups_of(es), rel, groups_of(es).len()) == 0,
{
    let gs = groups_of(es);
    assert forall|q: int| 0 <= q < gs.len() implies (#[trigger] gs[q]).1 == 0 by {
        lemma_group_source(es, es.len() as nat, q);
    }
    lemma_total_zero(gs, rel, gs.len());
}

proof fn lemma_group_source(es: Seq<Entity>, k: nat, q: int)
    requires
        k <= es.len(),
        0 <= q < groups_upto(es, k).len(),
    ensures
        exists|i: int, g: int|
            0 <= i < k && 0 <= g < es[i].fm.relations@.len() && groups_upto(es, k)[q].1 == (
            #[trigger] es[i].fm.relations@[g]).1@.len(),
    decreases k,
{
    let f = |p: (String, Vec<crate::model::RelEntry>)| (p.0@, p.1@.len());
    let prev = groups_upto(es, (k - 1) as nat);
    assert(groups_upto(es, k) == prev + es[k - 1].fm.relations@.map_values(f));
    if q < prev.len() {
        lemma_group_source(es, (k - 1) as nat, q);
    } else {
        let g = q - prev.len();
        assert(groups_upto(es, k)[q] == es[k - 1].fm.relations@.map_values(f)[g]);
        assert(es[k - 1].fm.relations@[g] == es[k - 1].fm.relations@[g]);
    }
}

proof fn lemma_total_zero(gs: Seq<(Seq<char>, nat)>, rel: Option<Seq<char>>, k: nat)
    requires
        k <= gs.len(),
        forall|q: int| 0 <= q < gs.len() ==> (#[trigger] gs[q]).1 == 0,
    ensures
        entries_total(gs, rel, k) == 0,
    decreases k,
{
    if k > 0 {
        lemma_total_zero(gs, rel, (k - 1) as nat);
        assert(gs[k - 1].1 == 0);
    }
}

fn collect_groups(es: &Vec<Entity>) -> (r: Vec<(String, usize)>)
    ensures
        r@.map_values(|g: (String, usize)| (g.0@, g.1 as nat)) == groups_of(es@),
{
    let mut out: Vec<(String, usize)> = Vec::new();
    let mut i: usize = 0;
    while i < es.len()
        invariant
            i <= es.len(),
            out@.map_values(|g: (String, usize)| (g.0@, g.1 as nat)) == groups_upto(es@, i as nat),
        decreases es.len() - i,
    {
        let rels = &es[i].fm.relations;
        let ghost base = out@.map_values(|g: (String, usize)| (g.0@, g.1 as nat));
        let ghost gv = rels@.map_values(|p: (String, Vec<crate::model::RelEntry>)| (p.0@, p.1@.len()));
        let mut k: usize = 0;
        while k < rels.len()
            invariant
                k <= rels.len(),
                gv == rels@.map_values(|p: (String, Vec<crate::model::RelEntry>)| (p.0@, p.1@.len())),
                out@.map_values(|g: (String, usize)| (g.0@, g.1 as nat)) == base + gv.take(k as int),
            decreases rels.len() - k,
        {
            out.push((rels[k].0.clone(), rels[k].1.len()));
            proof {
                assert(gv[k as int] == (rels@[k as int].0@, rels@[k as int].1@.len()));
                assert(gv.take(k + 1) =~= gv.take(k as int).push(gv[k as int]));
                assert(base + gv.take(k + 1) =~= (base + gv.take(k as int)).push(gv[k as int]));
                assert(out@.map_values(|g: (String, usize)| (g.0@, g.1 as nat)) =~= out@.drop_last().map_values(
                    |g: (String, usize)| (g.0@, g.1 as nat),
                ).push((out@.last().0@, out@.last().1 as nat)));
            }
            k = k + 1;
        }
        proof {
            assert(gv.take(gv.len() as int) =~= gv);
        }
        i = i + 1;
    }
    out
}

/// The relation types with their entry counts, most first, then by name;
/// and the entries in all.
fn relation_rows(es: &Vec<Entity>) -> (r: (Vec<(String, usize)>, usize))
    requires
        entries_total(groups_of(es@), None, groups_of(es@).len()) <= usize::MAX,
    ensures
        r.1 == entries_total(groups_of(es@), None, groups_of(es@).len()),
        exists|t: Seq<(usize, usize)>|
            #[trigger] tally_ok(group_keys(groups_of(es@)), t) && r.0@.map_values(|g: (String, usize)| (g.0@, g.1 as nat))
                == rel_rows(groups_of(es@), t),
{
    let groups = collect_groups(es);
    let ghost gs = groups_of(es@);
    proof {
        assert forall|q: int| 0 <= q < groups@.len() implies (#[trigger] groups@[q]).0@ == gs[q].0 && groups@[q].1 as nat == gs[q].1 by {
            assert(groups@.map_values(|g: (String, usize)| (g.0@, g.1 as nat))[q] == gs[q]);
        }
    }
    let mut total: usize = 0;
    let mut q: usize = 0;
    while q < groups.len()
        invariant
            q <= groups@.len(),
            groups@.len() == gs.len(),
            forall|x: int| 0 <= x < groups@.len() ==> (#[trigger] groups@[x]).0@ == gs[x].0 && groups@[x].1 as nat == gs[x].1,
            entries_total(gs, None, gs.len()) <= usize::MAX,
            total == entries_total(gs, None, q as nat),
        decreases groups.len() - q,
    {
        proof {
            lemma_total_mono(gs, None, (q + 1) as nat, gs.len());
        }
        total = total + groups[q].1;
        q = q + 1;
    }
    let mut keys: Vec<SortKey> = Vec::new();
    let mut k: usize = 0;
    while k < groups.len()
        invariant
            k <= groups@.len(),
            groups@.len() == gs.len(),
            forall|x: int| 0 <= x < groups@.len() ==> (#[trigger] groups@[x]).0@ == gs[x].0 && groups@[x].1 as nat == gs[x].1,
            keys@.len() == k,
            forall|x: int| 0 <= x < k ==> key_view(#[trigger] keys@[x]) == group_keys(gs)[x],
        decreases groups.len() - k,
    {
        let mut key = crate::sort::empty_key();
        crate::sort::push_text(&mut key, groups[k].0.as_str());
        keys.push(key);
        proof {
            assert(key_view(keys@[k as int]) =~= group_keys(gs)[k as int]);
        }
        k = k + 1;
    }
    proof {
        assert(keys_view(keys@) =~= group_keys(gs));
    }
    let t = tally(&keys);
    let ghost names = t@.map_values(|p: (usize, usize)| gs[p.0 as int].0);
    let mut rows: Vec<(String, usize)> = Vec::new();
    let mut rkeys: Vec<SortKey> = Vec::new();
    let mut a: usize = 0;
    while a < t.len()
        invariant
            a <= t@.len(),
            tally_ok(group_keys(gs), t@),
            group_keys(gs).len() == gs.len(),
            groups@.len() == gs.len(),
            forall|x: int| 0 <= x < groups@.len() ==> (#[trigger] groups@[x]).0@ == gs[x].0 && groups@[x].1 as nat == gs[x].1,
            entries_total(gs, None, gs.len()) <= usize::MAX,
            names == t@.map_values(|p: (usize, usize)| gs[p.0 as int].0),
            rows@.len() == a,
            rkeys@.len() == a,
            forall|x: int| 0 <= x < a ==> (#[trigger] rows@[x]).0@ == names[x] && rows@[x].1 as nat == entries_total(gs, Some(names[x]), gs.len()),
            forall|x: int| 0 <= x < a ==> key_view(#[trigger] rkeys@[x]) == rel_rank_key(gs, names[x]),
        decreases t.len() - a,
    {
        proof {
            assert(t@[a as int].0 < group_keys(gs).len());
        }
        let rel = groups[t[a].0].0.clone();
        let mut sum: usize = 0;
        let mut q: usize = 0;
        while q < groups.len()
            invariant
                q <= groups@.len(),
                groups@.len() == gs.len(),
                forall|x: int| 0 <= x < groups@.len() ==> (#[trigger] groups@[x]).0@ == gs[x].0 && groups@[x].1 as nat == gs[x].1,
                entries_total(gs, None, gs.len()) <= usize::MAX,
                sum == entries_total(gs, Some(rel@), q as nat),
            decreases groups.len() - q,
        {
            proof {
                lemma_total_mono(gs, Some(rel@), (q + 1) as nat, gs.len());
                lemma_total_le(gs, rel@, gs.len());
            }
            if crate::text::str_eq(groups[q].0.as_str(), rel.as_str()) {
                sum = sum + groups[q].1;
            }
            q = q + 1;
        }
        let mut key = crate::sort::num_key(u64::MAX - sum as u64);
        crate::sort::push_text(&mut key, rel.as_str());
        proof {
            assert(names[a as int] == rel@);
            assert(key_view(key) =~= rel_rank_key(gs, rel@));
        }
        rkeys.push(key);
        rows.push((rel, sum));
        a = a + 1;
    }
    let order = crate::sort::sort_indices(&rkeys);
    proof {
        assert(keys_view(rkeys@) =~= names.map_values(|r: Seq<char>| rel_rank_key(gs, r)));
    }
    let mut out: Vec<(String, usize)> = Vec::new();
    let mut j: usize = 0;
    while j < order.len()
        invariant
            j <= order@.len(),
            crate::sort::is_permutation_of_range(order@, rows@.len() as int),
            rows@.len() == names.len(),
            forall|x: int| 0 <= x < rows@.len() ==> (#[trigger] rows@[x]).0@ == names[x] && rows@[x].1 as nat == entries_total(gs, Some(names[x]), gs.len()),
            out@.map_values(|g: (String, usize)| (g.0@, g.1 as nat)) == order@.take(j as int).map_values(
                |q: usize| (names[q as int], entries_total(gs, Some(names[q as int]), gs.len())),
            ),
        decreases order.len() - j,
    {
        let row = &rows[order[j]];
        out.push((row.0.clone(), row.1));
        proof {
            assert(order@.take(j + 1) =~= order@.take(j as int).push(order@[j as int]));
            assert(out@.map_values(|g: (String, usize)| (g.0@, g.1 as nat)) =~= out@.drop_last().map_values(
                |g: (String, usize)| (g.0@, g.1 as nat),
            ).push((out@.last().0@, out@.last().1 as nat)));
            assert(order@.take(j + 1).map_values(|q: usize| (names[q as int], entries_total(gs, Some(names[q as int]), gs.len())))
                =~= order@.take(j as int).map_values(|q: usize| (names[q as int], entries_total(gs, Some(names[q as int]), gs.len()))).push(
                (names[order@[j as int] as int], entries_total(gs, Some(names[order@[j as int] as int]), gs.len())),
            ));
        }
        j = j + 1;
    }
    proof {
        assert(order@.take(order@.len() as int) =~= order@);
        assert(tally_ok(group_keys(gs), t@));
    }
    (out, total)
}


// ───────────────────────────── assembling ─────────────────────────────

/// The pieces the summary is assembled from.
pub struct Parts {
    pub header: String,
    pub charter: Option<String>,
    pub kinds_line: String,
    pub relation_line: Option<String>,
    pub recent: Option<String>,
    pub lists: Vec<KindList>,
}

pub struct PartsV {
    pub header: Seq<char>,
    pub charter: Option<Seq<char>>,
    pub kinds_line: Seq<char>,
    pub relation_line: Option<Seq<char>>,
    pub recent: Option<Seq<char>>,
    pub lists: Seq<(Seq<char>, nat, Seq<Seq<char>>)>,
}

pub open spec fn parts_view(p: Parts) -> PartsV {
    PartsV {
        header: p.header@,
        charter: crate::model::opt_text(p.charter),
        kinds_line: p.kinds_line@,
        relation_line: crate::model::opt_text(p.relation_line),
        recent: crate::model::opt_text(p.recent),
        lists: kind_lists_view(p.lists@),
    }
}

pub open spec fn footer_text() -> Seq<char> {
    "This map is authoritative. Details: laplace query / MCP tools; do not guess beyond it.\nIf your work touches an entity (add/rename/remove/re-relate), update the map in the same turn via add/link/update.\n</laplace-map>"@
}

/// The line listing up to `cap` names of a kind, and how many are left out.
pub open spec fn list_line(kind: Seq<char>, names: Seq<Seq<char>>, cap: nat) -> Seq<char> {
    let shown = if cap < names.len() { cap } else { names.len() };
    let more = (names.len() - shown) as nat;
    kind + ": "@ + join_with(names.take(shown as int), ", "@) + if more > 0 {
        ", …+"@ + decimal(more) + " more"@
    } else {
        seq![]
    }
}

/// The name-list lines over the first `k` kinds, kinds capped at zero left out.
pub open spec fn list_lines(lists: Seq<(Seq<char>, nat, Seq<Seq<char>>)>, caps: Seq<nat>, k: nat) -> Seq<Seq<char>>
    decreases k,
{
    if k == 0 {
        seq![]
    } else {
        let before = list_lines(lists, caps, (k - 1) as nat);
        if caps[k - 1] == 0 {
            before
        } else {
            before.push(list_line(lists[k - 1].0, lists[k - 1].2, caps[k - 1]))
        }
    }
}

pub open spec fn opt_line(o: Option<Seq<char>>) -> Seq<Seq<char>> {
    match o {
        Some(l) => seq![l],
        None => seq![],
    }
}

/// The lines of the summary at a tier: header, charter, kinds; relation
/// types from tier 1; name lists at tier 3; recent changes from tier 2; the
/// closing lines.
pub open spec fn summary_lines(p: PartsV, caps: Seq<nat>, tier: u8) -> Seq<Seq<char>> {
    seq![p.header] + opt_line(p.charter) + seq![p.kinds_line] + (if tier >= 1 {
        opt_line(p.relation_line)
    } else {
        seq![]
    }) + (if tier >= 3 {
        list_lines(p.lists, caps, p.lists.len())
    } else {
        seq![]
    }) + (if tier >= 2 {
        opt_line(p.recent)
    } else {
        seq![]
    }) + seq![footer_text()]
}

pub open spec fn assemble_text(p: PartsV, caps: Seq<nat>, tier: u8) -> Seq<char> {
    join_with(summary_lines(p, caps, tier), "\n"@)
}

pub open spec fn caps_view(c: Seq<usize>) -> Seq<nat> {
    c.map_values(|x: usize| x as nat)
}

fn push_opt(out: &mut Vec<String>, o: &Option<String>)
    ensures
        strs(final(out)@) == strs(old(out)@) + opt_line(crate::model::opt_text(*o)),
{
    match o {
        Some(l) => {
            out.push(l.clone());
            assert(strs(out@) =~= strs(old(out)@) + opt_line(crate::model::opt_text(*o)));
        },
        None => {
            assert(strs(out@) =~= strs(old(out)@) + opt_line(crate::model::opt_text(*o)));
        },
    }
}

fn render_list_line(kind: &str, names: &Vec<String>, cap: usize) -> (r: String)
    ensures
        r@ == list_line(kind@, strs(names@), cap as nat),
{
    let shown = if cap < names.len() {
        cap
    } else {
        names.len()
    };
    let mut taken: Vec<String> = Vec::new();
    let mut i: usize = 0;
    while i < shown
        invariant
            i <= shown <= names@.len(),
            strs(taken@) == strs(names@).take(i as int),
        decreases shown - i,
    {
        taken.push(names[i].clone());
        proof {
            assert(strs(taken@) =~= strs(taken@.drop_last()).push(taken@.last()@));
            assert(strs(names@).take(i + 1) =~= strs(names@).take(i as int).push(names@[i as int]@));
        }
        i = i + 1;
    }
    let mut line = concat(kind, ": ");
    line.append(join_strings(&taken, ", ").as_str());
    let more = names.len() - shown;
    if more > 0 {
        line.append(", …+");
        line.append(decimal_string(more).as_str());
        line.append(" more");
    }
    proof {
        assert(line@ =~= list_line(kind@, strs(names@), cap as nat));
    }
    line
}

/// The summary's text at a tier, name lists capped by `caps`.
fn assemble(p: &Parts, caps: &Vec<usize>, tier: u8) -> (r: String)
    requires
        caps@.len() == p.lists@.len(),
    ensures
        r@ == assemble_text(parts_view(*p), caps_view(caps@), tier),
{
    let ghost pv = parts_view(*p);
    let ghost cv = caps_view(caps@);
    let mut out: Vec<String> = Vec::new();
    out.push(p.header.clone());
    proof {
        assert(strs(out@) =~= seq![pv.header]);
    }
    push_opt(&mut out, &p.charter);
    let ghost la = strs(out@);
    out.push(p.kinds_line.clone());
    let ghost l0 = strs(out@);
    proof {
        assert(l0 =~= la.push(pv.kinds_line));
        assert(l0 =~= seq![pv.header] + opt_line(pv.charter) + seq![pv.kinds_line]);
    }
    if tier >= 1 {
        push_opt(&mut out, &p.relation_line);
    }
    let ghost l1 = strs(out@);
    if tier >= 3 {
        let mut k: usize = 0;
        while k < p.lists.len()
            invariant
                k <= p.lists@.len(),
                caps@.len() == p.lists@.len(),
                pv == parts_view(*p),
                cv == caps_view(caps@),
                strs(out@) == l1 + list_lines(pv.lists, cv, k as nat),
            decreases p.lists.len() - k,
        {
            proof {
                assert(pv.lists[k as int] == kind_list_view(p.lists@[k as int]));
                assert(cv[k as int] == caps@[k as int] as nat);
            }
            let ghost before = list_lines(pv.lists, cv, k as nat);
            proof {
                assert(((k + 1) as nat - 1) as int == k as int);
            }
            if caps[k] > 0 {
                let line = render_list_line(p.lists[k].kind.as_str(), &p.lists[k].names, caps[k]);
                out.push(line);
                proof {
                    assert(strs(out@) =~= strs(out@.drop_last()).push(out@.last()@));
                    assert(list_lines(pv.lists, cv, (k + 1) as nat) == before.push(line@));
                    assert(l1 + before.push(line@) =~= (l1 + before).push(line@));
                }
            } else {
                proof {
                    assert(list_lines(pv.lists, cv, (k + 1) as nat) == before);
                }
            }
            k = k + 1;
        }
    }
    let ghost l3 = strs(out@);
    if tier >= 2 {
        push_opt(&mut out, &p.recent);
    }
    out.push(owned("This map is authoritative. Details: laplace query / MCP tools; do not guess beyond it.\nIf your work touches an entity (add/rename/remove/re-relate), update the map in the same turn via add/link/update.\n</laplace-map>"));
    proof {
        assert(strs(out@) =~= summary_lines(pv, cv, tier));
    }
    join_strings(&out, "\n")
}


// ───────────────────────────── the parts ─────────────────────────────

/// What a git command printed, trimmed, when it printed anything.
pub open spec fn git_text_spec(out: Option<Seq<char>>) -> Option<Seq<char>> {
    match out {
        Some(o) => if crate::text::trim(o).len() > 0 {
            Some(crate::text::trim(o))
        } else {
            None
        },
        None => None,
    }
}

/// A git command's output (`None` when it failed), trimmed; `None` when empty.
pub fn git_text(out: Option<&str>) -> (r: Option<String>)
    ensures
        crate::model::opt_text(r) == git_text_spec(crate::query::opt_str(out)),
{
    match out {
        Some(o) => {
            if crate::text::blank(o) {
                None
            } else {
                Some(crate::text::trimmed(o))
            }
        },
        None => None,
    }
}

pub open spec fn header_text(project: Seq<char>, n: nat, total: nat, updated: Option<Seq<char>>) -> Seq<char> {
    "<laplace-map project=\""@ + project + "\" entities=\""@ + decimal(n) + "\" relations=\""@ + decimal(total) + "\""@
        + match updated {
        Some(d) => " updated=\""@ + d + "\""@,
        None => seq![],
    } + ">"@
}

pub open spec fn charter_line(charter: Seq<Seq<char>>) -> Option<Seq<char>> {
    if charter.len() == 0 {
        None
    } else {
        Some("charter: "@ + join_with(charter, " / "@))
    }
}

pub open spec fn counted(name: Seq<char>, n: nat) -> Seq<char> {
    name + "("@ + decimal(n) + ")"@
}

pub open spec fn kinds_line_text(rows: Seq<(Seq<char>, nat, Seq<Seq<char>>)>) -> Seq<char> {
    "kinds: "@ + join_with(rows.map_values(|r: (Seq<char>, nat, Seq<Seq<char>>)| counted(r.0, r.1)), ", "@)
}

pub open spec fn relation_line_text(rows: Seq<(Seq<char>, nat)>) -> Option<Seq<char>> {
    if rows.len() == 0 {
        None
    } else {
        Some("relation-types: "@ + join_with(rows.map_values(|r: (Seq<char>, nat)| counted(r.0, r.1)), ", "@))
    }
}

pub open spec fn recent_text(log: Option<Seq<char>>) -> Option<Seq<char>> {
    match log {
        Some(l) => Some("recent:\n"@ + join_with(lines_of(l).map_values(|x: Seq<char>| "  "@ + x), "\n"@)),
        None => None,
    }
}

pub open spec fn project_name(v: crate::vault::Vault) -> Seq<char> {
    match v.schema.title {
        Some(t) => t@,
        None => v.schema.name@,
    }
}

/// The summary's parts for tallies `tk` of the kinds and `tr` of the relation groups.
pub open spec fn summary_parts(
    v: crate::vault::Vault,
    updated: Option<Seq<char>>,
    recent: Option<Seq<char>>,
    tk: Seq<(usize, usize)>,
    tr: Seq<(usize, usize)>,
) -> PartsV {
    let es = v.entities@;
    let kr = kind_rows(es, tk);
    let gs = groups_of(es);
    PartsV {
        header: header_text(project_name(v), es.len(), entries_total(gs, None, gs.len()), git_text_spec(updated)),
        charter: charter_line(strs(v.schema.charter@)),
        kinds_line: kinds_line_text(kr),
        relation_line: relation_line_text(rel_rows(gs, tr)),
        recent: recent_text(git_text_spec(recent)),
        lists: kr,
    }
}

pub open spec fn tallies_ok(es: Seq<Entity>, tk: Seq<(usize, usize)>, tr: Seq<(usize, usize)>) -> bool {
    tally_ok(kind_keys(es), tk) && tally_ok(group_keys(groups_of(es)), tr)
}

fn counted_text(name: &str, n: usize) -> (r: String)
    ensures
        r@ == counted(name@, n as nat),
{
    let mut s = concat(name, "(");
    s.append(decimal_string(n).as_str());
    s.append(")");
    s
}

/// Gather the parts of the summary.
#[verifier::rlimit(40)]
fn build_parts(vault: &crate::vault::Vault, updated: Option<&str>, recent: Option<&str>) -> (p: Parts)
    requires
        entries_total(groups_of(vault.entities@), None, groups_of(vault.entities@).len()) <= usize::MAX,
    ensures
        exists|tk: Seq<(usize, usize)>, tr: Seq<(usize, usize)>|
            #[trigger] tallies_ok(vault.entities@, tk, tr) && parts_view(p) == summary_parts(
                *vault,
                crate::query::opt_str(updated),
                crate::query::opt_str(recent),
                tk,
                tr,
            ),
{
    let es = &vault.entities;
    let lists = kind_lists(es);
    let (rels, total) = relation_rows(es);
    let ghost tk = choose|t: Seq<(usize, usize)>| #[trigger] tally_ok(kind_keys(es@), t) && kind_lists_view(lists@) == kind_rows(es@, t);
    let ghost tr = choose|t: Seq<(usize, usize)>|
        #[trigger] tally_ok(group_keys(groups_of(es@)), t) && rels@.map_values(|g: (String, usize)| (g.0@, g.1 as nat))
            == rel_rows(groups_of(es@), t);
    let ghost kr = kind_rows(es@, tk);
    let project = match &vault.schema.title {
        Some(t) => t.clone(),
        None => vault.schema.name.clone(),
    };
    let mut header = concat3("<laplace-map project=\"", project.as_str(), "\" entities=\"");
    header.append(decimal_string(es.len()).as_str());
    header.append("\" relations=\"");
    header.append(decimal_string(total).as_str());
    header.append("\"");
    let upd = git_text(updated);
    match &upd {
        Some(d) => {
            header.append(" updated=\"");
            header.append(d.as_str());
            header.append("\"");
        },
        None => {},
    }
    header.append(">");
    let charter = if vault.schema.charter.len() == 0 {
        None
    } else {
        Some(concat("charter: ", join_strings(&vault.schema.charter, " / ").as_str()))
    };
    let mut kind_items: Vec<String> = Vec::new();
    let mut a: usize = 0;
    while a < lists.len()
        invariant
            a <= lists@.len(),
            kind_lists_view(lists@) == kr,
            strs(kind_items@) == kr.take(a as int).map_values(|r: (Seq<char>, nat, Seq<Seq<char>>)| counted(r.0, r.1)),
        decreases lists.len() - a,
    {
        kind_items.push(counted_text(lists[a].kind.as_str(), lists[a].count));
        proof {
            assert(kr[a as int] == kind_list_view(lists@[a as int]));
            assert(kr.take(a + 1) =~= kr.take(a as int).push(kr[a as int]));
            assert(strs(kind_items@) =~= strs(kind_items@.drop_last()).push(kind_items@.last()@));
            assert(kr.take(a + 1).map_values(|r: (Seq<char>, nat, Seq<Seq<char>>)| counted(r.0, r.1)) =~= kr.take(a as int).map_values(
                |r: (Seq<char>, nat, Seq<Seq<char>>)| counted(r.0, r.1),
            ).push(counted(kr[a as int].0, kr[a as int].1)));
        }
        a = a + 1;
    }
    proof {
        assert(kr.take(kr.len() as int) =~= kr);
    }
    let kinds_line = concat("kinds: ", join_strings(&kind_items, ", ").as_str());
    let ghost rr = rels@.map_values(|g: (String, usize)| (g.0@, g.1 as nat));
    let relation_line = if rels.len() == 0 {
        None
    } else {
        let mut items: Vec<String> = Vec::new();
        let mut b: usize = 0;
        while b < rels.len()
            invariant
                b <= rels@.len(),
                rr == rels@.map_values(|g: (String, usize)| (g.0@, g.1 as nat)),
                strs(items@) == rr.take(b as int).map_values(|r: (Seq<char>, nat)| counted(r.0, r.1)),
            decreases rels.len() - b,
        {
            items.push(counted_text(rels[b].0.as_str(), rels[b].1));
            proof {
                assert(rr.take(b + 1) =~= rr.take(b as int).push(rr[b as int]));
                assert(strs(items@) =~= strs(items@.drop_last()).push(items@.last()@));
                assert(rr.take(b + 1).map_values(|r: (Seq<char>, nat)| counted(r.0, r.1)) =~= rr.take(b as int).map_values(
                    |r: (Seq<char>, nat)| counted(r.0, r.1),
                ).push(counted(rr[b as int].0, rr[b as int].1)));
            }
            b = b + 1;
        }
        proof {
            assert(rr.take(rr.len() as int) =~= rr);
        }
        Some(concat("relation-types: ", join_strings(&items, ", ").as_str()))
    };
    let recent_part = match git_text(recent) {
        Some(log) => {
            let lines = split_lines(log.as_str());
            let ghost lv = lines_of(log@);
            let mut indented: Vec<String> = Vec::new();
            let mut c: usize = 0;
            while c < lines.len()
                invariant
                    c <= lines@.len(),
                    strs(lines@) == lv,
                    strs(indented@) == lv.take(c as int).map_values(|x: Seq<char>| "  "@ + x),
                decreases lines.len() - c,
            {
                indented.push(concat("  ", lines[c].as_str()));
                proof {
                    assert(lv[c as int] == lines@[c as int]@);
                    assert(lv.take(c + 1) =~= lv.take(c as int).push(lv[c as int]));
                    assert(strs(indented@) =~= strs(indented@.drop_last()).push(indented@.last()@));
                    assert(lv.take(c + 1).map_values(|x: Seq<char>| "  "@ + x) =~= lv.take(c as int).map_values(
                        |x: Seq<char>| "  "@ + x,
                    ).push("  "@ + lv[c as int]));
                }
                c = c + 1;
            }
            proof {
                assert(lv.take(lv.len() as int) =~= lv);
            }
            Some(concat("recent:\n", join_strings(&indented, "\n").as_str()))
        },
        None => None,
    };
    let p = Parts { header, charter, kinds_line, relation_line, recent: recent_part, lists };
    proof {
        let want = summary_parts(*vault, crate::query::opt_str(updated), crate::query::opt_str(recent), tk, tr);
        assert(p.header@ =~= want.header);
        assert(parts_view(p) == want);
        assert(tallies_ok(vault.entities@, tk, tr));
    }
    p
}


// ───────────────────────────── fitting the budget ─────────────────────────────

pub open spec fn caps_sum(c: Seq<nat>) -> nat
    decreases c.len(),
{
    if c.len() == 0 {
        0
    } else {
        caps_sum(c.drop_last()) + c.last()
    }
}

/// Among the first `k` caps, the last of the largest positive ones.
pub open spec fn pick_upto(c: Seq<nat>, k: nat) -> Option<int>
    decreases k,
{
    if k == 0 {
        None
    } else {
        let b = pick_upto(c, (k - 1) as nat);
        if c[k - 1] > 0 && (b is None || c[k - 1] >= c[b->0]) {
            Some((k - 1) as int)
        } else {
            b
        }
    }
}

proof fn lemma_pick(c: Seq<nat>, k: nat)
    requires
        k <= c.len(),
    ensures
        match pick_upto(c, k) {
            Some(a) => 0 <= a < k && c[a] > 0,
            None => forall|i: int| 0 <= i < k ==> c[i] == 0,
        },
    decreases k,
{
    if k > 0 {
        lemma_pick(c, (k - 1) as nat);
    }
}

pub proof fn lemma_sum_dec(c: Seq<nat>, a: int)
    requires
        0 <= a < c.len(),
        c[a] > 0,
    ensures
        caps_sum(c.update(a, (c[a] - 1) as nat)) + 1 == caps_sum(c),
    decreases c.len(),
{
    if a < c.len() - 1 {
        lemma_sum_dec(c.drop_last(), a);
        assert(c.update(a, (c[a] - 1) as nat).drop_last() =~= c.drop_last().update(a, (c[a] - 1) as nat));
    } else {
        assert(c.update(a, (c[a] - 1) as nat).drop_last() =~= c.drop_last());
    }
}

/// Without name lists: recent changes and relation types while they fit,
/// else the bare tier 0.
pub open spec fn fallback(p: PartsV, budget: nat, caps: Seq<nat>) -> (Seq<char>, u8) {
    let t2 = assemble_text(p, caps, 2);
    let t1 = assemble_text(p, caps, 1);
    if token_estimate(t2) <= budget {
        (t2, 2)
    } else if token_estimate(t1) <= budget {
        (t1, 1)
    } else {
        (assemble_text(p, caps, 0), 0)
    }
}

/// The full summary while it fits; else the largest name list loses its
/// last name, again and again; with no names left, the lower tiers.
pub open spec fn fit(p: PartsV, budget: nat, caps: Seq<nat>) -> (Seq<char>, u8)
    decreases caps_sum(caps),
{
    let text = assemble_text(p, caps, 3);
    if token_estimate(text) <= budget {
        (text, 3)
    } else {
        match pick_upto(caps, caps.len()) {
            Some(a) => if 0 <= a < caps.len() && caps[a] > 0 {
                proof {
                    lemma_sum_dec(caps, a);
                }
                fit(p, budget, caps.update(a, (caps[a] - 1) as nat))
            } else {
                fallback(p, budget, caps)
            },
            None => fallback(p, budget, caps),
        }
    }
}

/// Every name of every kind: the caps the fitting starts from.
pub open spec fn full_caps(p: PartsV) -> Seq<nat> {
    p.lists.map_values(|l: (Seq<char>, nat, Seq<Seq<char>>)| l.2.len())
}

/// The rendered summary, its token estimate, and the highest tier that made
/// it in (0 to 3).
pub struct Summary {
    pub text: String,
    pub tokens: usize,
    pub tier: u8,
}

fn pick(caps: &Vec<usize>) -> (r: Option<usize>)
    ensures
        match r {
            Some(a) => pick_upto(caps_view(caps@), caps@.len() as nat) == Some(a as int),
            None => pick_upto(caps_view(caps@), caps@.len() as nat) is None,
        },
{
    let ghost cv = caps_view(caps@);
    let mut best: Option<usize> = None;
    let mut k: usize = 0;
    while k < caps.len()
        invariant
            k <= caps.len(),
            cv == caps_view(caps@),
            match best {
                Some(a) => pick_upto(cv, k as nat) == Some(a as int) && a < k,
                None => pick_upto(cv, k as nat) is None,
            },
        decreases caps.len() - k,
    {
        let take = caps[k] > 0 && match best {
            Some(b) => caps[k] >= caps[b],
            None => true,
        };
        if take {
            best = Some(k);
        }
        k = k + 1;
    }
    best
}

/// Render the summary for a token budget. `updated` and `recent` are what
/// `git log` printed for the vault's last commit date and its last commits
/// (`None` when git failed). The text is the first that fits of: the full
/// summary, the summary with the largest name list cut by one name (again
/// and again), without name lists, without recent changes, and the bare
/// header, charter, kinds and closing lines (which always come).
#[verifier::rlimit(40)]
pub fn render(vault: &crate::vault::Vault, budget: usize, updated: Option<&str>, recent: Option<&str>) -> (r: Summary)
    requires
        entries_total(groups_of(vault.entities@), None, groups_of(vault.entities@).len()) <= usize::MAX,
    ensures
        r.tokens == token_estimate(r.text@),
        rendered(*vault, crate::query::opt_str(updated), crate::query::opt_str(recent), budget as nat, r.text@, r.tier),
{
    let parts = build_parts(vault, updated, recent);
    let ghost pv = parts_view(parts);
    let ghost (tk, tr) = choose|tk: Seq<(usize, usize)>, tr: Seq<(usize, usize)>|
        #[trigger] tallies_ok(vault.entities@, tk, tr) && parts_view(parts) == summary_parts(
            *vault,
            crate::query::opt_str(updated),
            crate::query::opt_str(recent),
            tk,
            tr,
        );
    let mut caps: Vec<usize> = Vec::new();
    let mut a: usize = 0;
    while a < parts.lists.len()
        invariant
            a <= parts.lists@.len(),
            pv == parts_view(parts),
            caps_view(caps@) == full_caps(pv).take(a as int),
        decreases parts.lists.len() - a,
    {
        caps.push(parts.lists[a].names.len());
        proof {
            assert(pv.lists[a as int] == kind_list_view(parts.lists@[a as int]));
            assert(full_caps(pv)[a as int] == pv.lists[a as int].2.len());
            assert(strs(parts.lists@[a as int].names@).len() == parts.lists@[a as int].names@.len());
            assert(caps_view(caps@) =~= caps_view(caps@.drop_last()).push(caps@.last() as nat));
            assert(full_caps(pv).take(a + 1) =~= full_caps(pv).take(a as int).push(full_caps(pv)[a as int]));
            assert(caps_view(caps@) =~= full_caps(pv).take(a + 1));
        }
        a = a + 1;
    }
    proof {
        assert(full_caps(pv).take(full_caps(pv).len() as int) =~= full_caps(pv));
    }
    let ghost target = fit(pv, budget as nat, full_caps(pv));
    loop
        invariant
            pv == parts_view(parts),
            caps@.len() == parts.lists@.len(),
            fit(pv, budget as nat, caps_view(caps@)) == target,
            target == fit(pv, budget as nat, full_caps(pv)),
            tallies_ok(vault.entities@, tk, tr),
            pv == summary_parts(*vault, crate::query::opt_str(updated), crate::query::opt_str(recent), tk, tr),
        ensures
            fit(pv, budget as nat, caps_view(caps@)) == fallback(pv, budget as nat, caps_view(caps@)),
            fit(pv, budget as nat, caps_view(caps@)) == target,
            caps@.len() == parts.lists@.len(),
        decreases caps_sum(caps_view(caps@)),
    {
        let text = assemble(&parts, &caps, 3);
        let tokens = estimate_tokens(text.as_str());
        if tokens <= budget {
            let r = Summary { text, tokens, tier: 3 };
            proof {
                assert(fit(pv, budget as nat, caps_view(caps@)) == (r.text@, 3u8));
                assert(tallies_ok(vault.entities@, tk, tr));
            }
            return r;
        }
        let ghost cv = caps_view(caps@);
        proof {
            lemma_pick(cv, cv.len());
        }
        match pick(&caps) {
            Some(k) => {
                let ghost before = cv;
                caps.set(k, caps[k] - 1);
                proof {
                    assert(caps_view(caps@) =~= before.update(k as int, (before[k as int] - 1) as nat));
                    lemma_sum_dec(before, k as int);
                }
            },
            None => {
                proof {
                    assert(fit(pv, budget as nat, cv) == fallback(pv, budget as nat, cv));
                }
                break;
            },
        }
    }
    let t2 = assemble(&parts, &caps, 2);
    let k2 = estimate_tokens(t2.as_str());
    if k2 <= budget {
        let r = Summary { text: t2, tokens: k2, tier: 2 };
        proof {
            assert((r.text@, r.tier) == target);
            assert(tallies_ok(vault.entities@, tk, tr));
        }
        return r;
    }
    let t1 = assemble(&parts, &caps, 1);
    let k1 = estimate_tokens(t1.as_str());
    if k1 <= budget {
        let r = Summary { text: t1, tokens: k1, tier: 1 };
        proof {
            assert((r.text@, r.tier) == target);
            assert(tallies_ok(vault.entities@, tk, tr));
        }
        return r;
    }
    let t0 = assemble(&parts, &caps, 0);
    let k0 = estimate_tokens(t0.as_str());
    let r = Summary { text: t0, tokens: k0, tier: 0 };
    proof {
        assert((r.text@, r.tier) == target);
        assert(tallies_ok(vault.entities@, tk, tr));
    }
    r
}

/// The summary fits its budget, unless it fell back to the bare tier 0.
pub proof fn lemma_summary_fits(p: PartsV, budget: nat, caps: Seq<nat>)
    ensures
        fit(p, budget, caps).1 > 0 ==> token_estimate(fit(p, budget, caps).0) <= budget,
        fit(p, budget, caps).1 <= 3,
    decreases caps_sum(caps),
{
    let text = assemble_text(p, caps, 3);
    if token_estimate(text) > budget {
        match pick_upto(caps, caps.len()) {
            Some(a) => if 0 <= a < caps.len() && caps[a] > 0 {
                lemma_sum_dec(caps, a);
                lemma_summary_fits(p, budget, caps.update(a, (caps[a] - 1) as nat));
            },
            None => {},
        }
    }
}

/// The summary of `vault` within `budget`, given git's outputs: the text
/// and tier that `fit` picks over its parts, tallied by kind and by group.
pub open spec fn rendered(
    vault: crate::vault::Vault,
    updated: Option<Seq<char>>,
    recent: Option<Seq<char>>,
    budget: nat,
    text: Seq<char>,
    tier: u8,
) -> bool {
    exists|tk: Seq<(usize, usize)>, tr: Seq<(usize, usize)>|
        #[trigger] tallies_ok(vault.entities@, tk, tr) && ({
            let p = summary_parts(vault, updated, recent, tk, tr);
            (text, tier) == fit(p, budget, full_caps(p))
        })
}

/// Of two summaries of one vault with the same git outputs, the one with
/// the larger budget has no lower tier.
pub proof fn lemma_render_tier_monotone(
    vault: crate::vault::Vault,
    updated: Option<Seq<char>>,
    recent: Option<Seq<char>>,
    b1: nat,
    b2: nat,
    t1: Seq<char>,
    k1: u8,
    t2: Seq<char>,
    k2: u8,
)
    requires
        b1 <= b2,
        rendered(vault, updated, recent, b1, t1, k1),
        rendered(vault, updated, recent, b2, t2, k2),
    ensures
        k1 <= k2,
{
    let (tk1, tr1) = choose|tk: Seq<(usize, usize)>, tr: Seq<(usize, usize)>|
        #[trigger] tallies_ok(vault.entities@, tk, tr) && ({
            let p = summary_parts(vault, updated, recent, tk, tr);
            (t1, k1) == fit(p, b1, full_caps(p))
        });
    let (tk2, tr2) = choose|tk: Seq<(usize, usize)>, tr: Seq<(usize, usize)>|
        #[trigger] tallies_ok(vault.entities@, tk, tr) && ({
            let p = summary_parts(vault, updated, recent, tk, tr);
            (t2, k2) == fit(p, b2, full_caps(p))
        });
    crate::sort::lemma_tally_unique(kind_keys(vault.entities@), tk1, tk2);
    crate::sort::lemma_tally_unique(group_keys(groups_of(vault.entities@)), tr1, tr2);
    let p = summary_parts(vault, updated, recent, tk1, tr1);
    lemma_tier_monotone(p, b1, b2, full_caps(p));
}

/// A larger budget never gives a lower tier: the names are cut in the same
/// order whatever the budget, and each cut and fallback is kept the moment
/// it fits.
pub proof fn lemma_tier_monotone(p: PartsV, b1: nat, b2: nat, caps: Seq<nat>)
    requires
        b1 <= b2,
    ensures
        fit(p, b1, caps).1 <= fit(p, b2, caps).1,
    decreases caps_sum(caps),
{
    let text = assemble_text(p, caps, 3);
    lemma_summary_fits(p, b1, caps);
    if token_estimate(text) > b2 {
        match pick_upto(caps, caps.len()) {
            Some(a) => if 0 <= a < caps.len() && caps[a] > 0 {
                lemma_sum_dec(caps, a);
                lemma_tier_monotone(p, b1, b2, caps.update(a, (caps[a] - 1) as nat));
            },
            None => {},
        }
    }
}

} // verus!
