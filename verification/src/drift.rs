//! Drift: the freshness audit run at the start of a session. Git says which
//! paths changed since the vault was last committed; this module decides
//! which of them matter, which anchored entities they make stale, which no
//! entity claims, and which anchors git can never watch. Running git and
//! walking the disk are the caller's.

use vstd::prelude::*;
use crate::mcp::components;
use crate::model::{canonical, strs, Entity};
use crate::schema_ops::sorted_insert;
use crate::summary::join_with;
use crate::text::{chars_of, contains_text, occurs_at, trim};
use crate::validate::{glob_accepts, glob_match_result};

verus! {

// ───────────────────────────── git's output ─────────────────────────────

/// Bytes a char takes in UTF-8.
pub open spec fn utf8_width(c: char) -> nat {
    if (c as u32) < 0x80 {
        1
    } else if (c as u32) < 0x800 {
        2
    } else if (c as u32) < 0x10000 {
        3
    } else {
        4
    }
}

/// How many leading chars take exactly `b` bytes, when a char boundary
/// falls there.
pub open spec fn chars_for_bytes(s: Seq<char>, b: nat) -> Option<nat>
    decreases s.len(),
{
    if b == 0 {
        Some(0)
    } else if s.len() == 0 {
        None
    } else if utf8_width(s[0]) > b {
        None
    } else {
        match chars_for_bytes(s.drop_first(), (b - utf8_width(s[0])) as nat) {
            Some(k) => Some(k + 1),
            None => None,
        }
    }
}

/// `s.get(3..).unwrap_or("")`.
pub open spec fn after_status(s: Seq<char>) -> Seq<char> {
    match chars_for_bytes(s, 3) {
        Some(k) => s.skip(k as int),
        None => seq![],
    }
}

pub open spec fn arrow() -> Seq<char> {
    seq![' ', '-', '>', ' ']
}

/// `s.split(" -> ").last()`: what follows the last separator met scanning
/// from the front.
pub open spec fn last_piece(s: Seq<char>) -> Seq<char>
    decreases s.len(),
{
    if s.len() < 4 {
        s
    } else if occurs_at(s, arrow(), 0) {
        last_piece(s.skip(4))
    } else {
        let r = last_piece(s.drop_first());
        if contains_text(s.drop_first(), arrow()) {
            r
        } else {
            s
        }
    }
}

/// The path of a `git status --porcelain` line: after the two status
/// columns, trimmed, and for a rename the new name.
pub open spec fn porcelain_path_of(line: Seq<char>) -> Seq<char> {
    last_piece(trim(after_status(line)))
}

proof fn lemma_occurs_shift(s: Seq<char>, p: Seq<char>, j: int)
    requires
        s.len() > 0,
    ensures
        occurs_at(s.drop_first(), p, j) == (j >= 0 && occurs_at(s, p, j + 1)),
{
    if j >= 0 && j + 1 + p.len() <= s.len() {
        assert(s.drop_first().subrange(j, j + p.len()) =~= s.subrange(j + 1, j + 1 + p.len()));
    }
}

proof fn lemma_last_piece_none(s: Seq<char>)
    requires
        !contains_text(s, arrow()),
    ensures
        last_piece(s) == s,
    decreases s.len(),
{
    if s.len() >= 4 {
        assert(!occurs_at(s, arrow(), 0));
        if contains_text(s.drop_first(), arrow()) {
            let j = choose|j: int| occurs_at(s.drop_first(), arrow(), j);
            lemma_occurs_shift(s, arrow(), j);
            assert(occurs_at(s, arrow(), j + 1));
        }
    }
}

proof fn lemma_last_piece_first(s: Seq<char>, i: int)
    requires
        occurs_at(s, arrow(), i),
        forall|j: int| 0 <= j < i ==> !occurs_at(s, arrow(), j),
    ensures
        last_piece(s) == last_piece(s.skip(i + 4)),
    decreases i,
{
    if i > 0 {
        let t = s.drop_first();
        lemma_occurs_shift(s, arrow(), i - 1);
        assert forall|j: int| 0 <= j < i - 1 implies !occurs_at(t, arrow(), j) by {
            lemma_occurs_shift(s, arrow(), j);
        }
        lemma_last_piece_first(t, i - 1);
        assert(t.skip(i - 1 + 4) =~= s.skip(i + 4));
        assert(!occurs_at(s, arrow(), 0));
        assert(contains_text(t, arrow()));
    }
}

/// The path a `git status --porcelain` line names.
pub fn porcelain_path(line: &str) -> (r: String)
    ensures
        r@ == porcelain_path_of(line@),
{
    let v = chars_of(line);
    let mut b: usize = 0;
    let mut k: usize = 0;
    let mut bad = false;
    let ghost s = v@;
    assert(s.skip(0) =~= s);
    while k < v.len() && b < 3 && !bad
        invariant
            k <= v.len(),
            b <= 3,
            s == v@,
            !bad ==> chars_for_bytes(s, 3) == match chars_for_bytes(s.skip(k as int), (3 - b) as nat) {
                Some(x) => Some((x + k) as nat),
                None => None::<nat>,
            },
            bad ==> chars_for_bytes(s, 3) is None,
        decreases v.len() - k, (if bad { 0int } else { 1int }),
    {
        let c = v[k];
        let w: usize = if (c as u32) < 0x80 {
            1
        } else if (c as u32) < 0x800 {
            2
        } else if (c as u32) < 0x10000 {
            3
        } else {
            4
        };
        proof {
            assert(s.skip(k as int)[0] == c);
            assert(s.skip(k as int).drop_first() =~= s.skip(k + 1));
        }
        if w > 3 - b {
            bad = true;
        } else {
            b = b + w;
            k = k + 1;
        }
    }
    let rest = if !bad && b == 3 {
        proof {
            assert(chars_for_bytes(s.skip(k as int), 0) == Some(0nat));
        }
        crate::text::string_of_range(&v, k, v.len())
    } else {
        proof {
            if !bad {
                assert(s.skip(k as int).len() == 0);
            }
        }
        String::new()
    };
    proof {
        assert(s.skip(k as int) =~= s.subrange(k as int, s.len() as int));
        assert(rest@ == after_status(line@));
    }
    let t = crate::text::trimmed(rest.as_str());
    let sep = chars_of(" -> ");
    proof {
        reveal_strlit(" -> ");
        assert(sep@ =~= arrow());
    }
    let mut cur = chars_of(t.as_str());
    let ghost target = last_piece(t@);
    assert(sep@.len() == 4);
    loop
        invariant
            sep@ == arrow(),
            sep@.len() == 4,
            last_piece(cur@) == target,
        ensures
            cur@ == target,
        decreases cur@.len(),
    {
        match crate::text::find_text(&cur, &sep) {
            None => {
                proof {
                    lemma_last_piece_none(cur@);
                }
                break;
            },
            Some(i) => {
                proof {
                    assert(occurs_at(cur@, sep@, i as int));
                    assert(i + 4 <= cur@.len());
                    lemma_last_piece_first(cur@, i as int);
                    assert(cur@.subrange(i + 4, cur@.len() as int) =~= cur@.skip(i + 4));
                }
                assert(i + 4 <= cur.len());
                let j: usize = i + 4;
                let next = crate::text::string_of_range(&cur, j, cur.len());
                cur = chars_of(next.as_str());
            },
        }
    }
    crate::text::string_of(&cur)
}


// ───────────────────────────── paths ─────────────────────────────

/// Components joined back into a path.
pub open spec fn join_components(c: Seq<Seq<char>>) -> Seq<char> {
    if c.len() > 0 && c[0] == "/"@ {
        "/"@ + join_with(c.drop_first(), "/"@)
    } else {
        join_with(c, "/"@)
    }
}

/// `Path::starts_with`: the components of `prefix` begin those of `p`.
pub open spec fn under(p: Seq<char>, prefix: Seq<char>) -> bool {
    let c = components(p);
    let pc = components(prefix);
    pc.len() <= c.len() && c.take(pc.len() as int) == pc
}

/// A repository path made relative to the project (`strip_prefix`).
pub open spec fn project_path(prefix: Seq<char>, p: Seq<char>) -> Option<Seq<char>> {
    if under(p, prefix) {
        let c = components(p);
        Some(join_components(c.skip(components(prefix).len() as int)))
    } else {
        None
    }
}

fn join_parts(c: &Vec<String>, from: usize) -> (r: String)
    requires
        from <= c@.len(),
    ensures
        r@ == join_components(strs(c@).skip(from as int)),
{
    let ghost cs = strs(c@).skip(from as int);
    let mut rest: Vec<String> = Vec::new();
    let mut i: usize = from;
    let lead = from < c.len() && crate::text::str_eq(c[from].as_str(), "/");
    if lead {
        i = i + 1;
    }
    let start = i;
    while i < c.len()
        invariant
            start <= i <= c@.len(),
            strs(rest@) == strs(c@).subrange(start as int, i as int),
        decreases c.len() - i,
    {
        let ghost o = strs(rest@);
        rest.push(c[i].clone());
        proof {
            assert(strs(rest@) =~= o.push(c@[i as int]@));
            assert(strs(c@).subrange(start as int, i + 1) =~= strs(c@).subrange(start as int, i as int).push(c@[i as int]@));
        }
        i = i + 1;
    }
    let body = crate::summary::join_strings(&rest, "/");
    proof {
        if lead {
            assert(cs[0] == "/"@);
            assert(strs(c@).subrange(start as int, c@.len() as int) =~= cs.drop_first());
        } else {
            assert(strs(c@).subrange(start as int, c@.len() as int) =~= cs);
        }
    }
    if lead {
        crate::text::concat("/", body.as_str())
    } else {
        body
    }
}

fn prefix_of(pc: &Vec<String>, c: &Vec<String>) -> (r: bool)
    ensures
        r == (pc@.len() <= c@.len() && strs(c@).take(pc@.len() as int) == strs(pc@)),
{
    if pc.len() > c.len() {
        return false;
    }
    let mut i: usize = 0;
    while i < pc.len()
        invariant
            i <= pc.len() <= c.len(),
            forall|j: int| 0 <= j < i ==> c@[j]@ == pc@[j]@,
        decreases pc.len() - i,
    {
        if !crate::text::str_eq(c[i].as_str(), pc[i].as_str()) {
            assert(strs(c@).take(pc@.len() as int)[i as int] != strs(pc@)[i as int]);
            return false;
        }
        i = i + 1;
    }
    assert(strs(c@).take(pc@.len() as int) =~= strs(pc@));
    true
}

/// Is `p` inside `prefix`?
pub fn is_under(p: &str, prefix: &str) -> (r: bool)
    ensures
        r == under(p@, prefix@),
{
    let c = crate::mcp::path_components(p);
    let pc = crate::mcp::path_components(prefix);
    prefix_of(&pc, &c)
}

/// Make a repository path relative to the project, when it lies inside it.
pub fn to_project(prefix: &str, p: &str) -> (r: Option<String>)
    ensures
        match r {
            Some(s) => project_path(prefix@, p@) == Some(s@),
            None => project_path(prefix@, p@) is None,
        },
{
    let c = crate::mcp::path_components(p);
    let pc = crate::mcp::path_components(prefix);
    if prefix_of(&pc, &c) {
        Some(join_parts(&c, pc.len()))
    } else {
        None
    }
}

// ───────────────────────────── the audit ─────────────────────────────

/// Some pattern of `globs` matches `p`.
pub open spec fn any_match(globs: Seq<Seq<char>>, p: Seq<char>) -> bool {
    exists|i: int| 0 <= i < globs.len() && glob_match_result(#[trigger] globs[i], p) == Some(true)
}

/// Every pattern of `globs` parses (the set can be built).
pub open spec fn all_parse(globs: Seq<Seq<char>>) -> bool {
    forall|i: int| 0 <= i < globs.len() ==> glob_accepts(#[trigger] globs[i])
}

/// The paths of `ps` that `globs` match, in order.
pub open spec fn matching(ps: Seq<Seq<char>>, globs: Seq<Seq<char>>) -> Seq<Seq<char>>
    decreases ps.len(),
{
    if ps.len() == 0 {
        seq![]
    } else {
        matching(ps.drop_last(), globs) + if any_match(globs, ps.last()) {
            seq![ps.last()]
        } else {
            seq![]
        }
    }
}

/// A changed path counts unless it is empty, inside the vault, or ignored
/// by the schema.
pub open spec fn counts(ignore: Seq<Seq<char>>, vault_prefix: Seq<char>, p: Seq<char>) -> bool {
    p.len() > 0 && !under(p, vault_prefix) && !(all_parse(ignore) && any_match(ignore, p))
}

/// The project paths named by the first `k` lines (each read by `read`),
/// in order.
pub open spec fn projected(prefix: Seq<char>, lines: Seq<Seq<char>>, porcelain: bool, k: nat) -> Seq<Seq<char>>
    decreases k,
{
    if k == 0 {
        seq![]
    } else {
        let l = lines[k - 1];
        let raw = if porcelain { porcelain_path_of(l) } else { trim(l) };
        projected(prefix, lines, porcelain, (k - 1) as nat) + match project_path(prefix, raw) {
            Some(p) => seq![p],
            None => seq![],
        }
    }
}

/// The counting paths among `ps` added to the sorted set `acc`.
pub open spec fn changed_set(acc: Seq<Seq<char>>, ps: Seq<Seq<char>>, ignore: Seq<Seq<char>>, vault_prefix: Seq<char>) -> Seq<Seq<char>>
    decreases ps.len(),
{
    if ps.len() == 0 {
        acc
    } else {
        let before = changed_set(acc, ps.drop_last(), ignore, vault_prefix);
        if counts(ignore, vault_prefix, ps.last()) {
            sorted_insert(before, ps.last())
        } else {
            before
        }
    }
}

/// What the audit has found after the first `k` entities: stale entities
/// with the changed paths that hit them, dead anchors, the number of
/// entities without anchors, and the anchor sets that cover territory.
pub struct DriftAcc {
    pub stale: Seq<(Seq<char>, Seq<Seq<char>>)>,
    pub dead: Seq<Seq<char>>,
    pub unanchored: nat,
    pub covering: Seq<Seq<Seq<char>>>,
}

pub open spec fn audit_upto(es: Seq<Entity>, changed: Seq<Seq<char>>, in_git: Seq<Seq<char>>, disk: Seq<Seq<char>>, k: nat) -> DriftAcc
    decreases k,
{
    if k == 0 {
        DriftAcc { stale: seq![], dead: seq![], unanchored: 0, covering: seq![] }
    } else {
        let a = audit_upto(es, changed, in_git, disk, (k - 1) as nat);
        let e = es[k - 1];
        let src = strs(e.fm.source@);
        if src.len() == 0 {
            DriftAcc { unanchored: a.unanchored + 1, ..a }
        } else if !all_parse(src) {
            a
        } else {
            let hits = matching(changed, src);
            let disk_hits = matching(disk, src);
            let r = canonical(e.eref@);
            DriftAcc {
                stale: if hits.len() > 0 { a.stale.push((r, hits)) } else { a.stale },
                dead: if disk_hits.len() > 0 && !(exists|q: int| 0 <= q < disk_hits.len() && in_git.contains(#[trigger] disk_hits[q])) {
                    a.dead.push(r)
                } else {
                    a.dead
                },
                unanchored: a.unanchored,
                covering: a.covering.push(src),
            }
        }
    }
}

/// The changed paths no covering anchor set claims, in order.
pub open spec fn unclaimed(changed: Seq<Seq<char>>, covering: Seq<Seq<Seq<char>>>) -> Seq<Seq<char>>
    decreases changed.len(),
{
    if changed.len() == 0 {
        seq![]
    } else {
        unclaimed(changed.drop_last(), covering) + if exists|c: int| 0 <= c < covering.len() && any_match(#[trigger] covering[c], changed.last()) {
            seq![]
        } else {
            seq![changed.last()]
        }
    }
}

/// What the audit reports.
pub struct DriftReport {
    /// The changed paths that count, sorted.
    pub changed: Vec<String>,
    /// Each stale entity (canonical ref) with the changed paths in its territory.
    pub stale: Vec<(String, Vec<String>)>,
    /// Changed paths that no entity claims.
    pub uncovered: Vec<String>,
    /// Entities whose anchors resolve only to paths git does not track.
    pub dead_anchors: Vec<String>,
    /// Entities without anchors.
    pub unanchored: usize,
}

pub open spec fn stale_view(v: Seq<(String, Vec<String>)>) -> Seq<(Seq<char>, Seq<Seq<char>>)> {
    v.map_values(|p: (String, Vec<String>)| (p.0@, strs(p.1@)))
}

pub open spec fn audit_ok(
    vault: crate::vault::Vault,
    prefix: Seq<char>,
    vault_prefix: Seq<char>,
    committed: Seq<Seq<char>>,
    dirty: Seq<Seq<char>>,
    listed: Seq<Seq<char>>,
    disk: Seq<Seq<char>>,
    r: DriftReport,
) -> bool {
    let ignore = strs(vault.schema.ignore@);
    let c1 = changed_set(seq![], projected(prefix, committed, false, committed.len()), ignore, vault_prefix);
    let changed = changed_set(c1, projected(prefix, dirty, true, dirty.len()), ignore, vault_prefix);
    let in_git = projected(prefix, listed, false, listed.len());
    let a = audit_upto(vault.entities@, changed, in_git, disk, vault.entities@.len());
    &&& strs(r.changed@) == changed
    &&& stale_view(r.stale@) == a.stale
    &&& strs(r.dead_anchors@) == a.dead
    &&& r.unanchored == a.unanchored
    &&& strs(r.uncovered@) == unclaimed(changed, a.covering)
}

fn project_lines(prefix: &str, lines: &Vec<String>, porcelain: bool) -> (r: Vec<String>)
    ensures
        strs(r@) == projected(prefix@, strs(lines@), porcelain, lines@.len() as nat),
{
    let ghost lv = strs(lines@);
    let mut out: Vec<String> = Vec::new();
    let mut i: usize = 0;
    while i < lines.len()
        invariant
            i <= lines.len(),
            lv == strs(lines@),
            strs(out@) == projected(prefix@, lv, porcelain, i as nat),
        decreases lines.len() - i,
    {
        proof {
            assert(lv[i as int] == lines@[i as int]@);
        }
        let raw = if porcelain {
            porcelain_path(lines[i].as_str())
        } else {
            crate::text::trimmed(lines[i].as_str())
        };
        match to_project(prefix, raw.as_str()) {
            Some(p) => {
                let ghost o = strs(out@);
                out.push(p);
                proof {
                    assert(strs(out@) =~= o.push(out@.last()@));
                }
            },
            None => {
                proof {
                    assert(projected(prefix@, lv, porcelain, (i + 1) as nat) =~= projected(prefix@, lv, porcelain, i as nat));
                }
            },
        }
        i = i + 1;
    }
    out
}

fn globs_parse(globs: &Vec<String>) -> (r: bool)
    ensures
        r == all_parse(strs(globs@)),
{
    let mut i: usize = 0;
    while i < globs.len()
        invariant
            i <= globs.len(),
            forall|j: int| 0 <= j < i ==> glob_accepts(#[trigger] strs(globs@)[j]),
        decreases globs.len() - i,
    {
        if !crate::validate::glob_parses(globs[i].as_str()) {
            assert(!glob_accepts(strs(globs@)[i as int]));
            return false;
        }
        i = i + 1;
    }
    true
}

fn globs_match(globs: &Vec<String>, p: &str) -> (r: bool)
    ensures
        r == any_match(strs(globs@), p@),
{
    let mut i: usize = 0;
    while i < globs.len()
        invariant
            i <= globs.len(),
            forall|j: int| 0 <= j < i ==> glob_match_result(#[trigger] strs(globs@)[j], p@) != Some(true),
        decreases globs.len() - i,
    {
        match crate::validate::glob_matches(globs[i].as_str(), p) {
            Some(true) => {
                assert(glob_match_result(strs(globs@)[i as int], p@) == Some(true));
                return true;
            },
            _ => {},
        }
        i = i + 1;
    }
    false
}

fn matching_of(ps: &Vec<String>, globs: &Vec<String>) -> (r: Vec<String>)
    ensures
        strs(r@) == matching(strs(ps@), strs(globs@)),
{
    let ghost pv = strs(ps@);
    let mut out: Vec<String> = Vec::new();
    let mut i: usize = 0;
    while i < ps.len()
        invariant
            i <= ps.len(),
            pv == strs(ps@),
            strs(out@) == matching(pv.take(i as int), strs(globs@)),
        decreases ps.len() - i,
    {
        proof {
            assert(pv.take(i + 1).drop_last() =~= pv.take(i as int));
            assert(pv.take(i + 1).last() == ps@[i as int]@);
        }
        if globs_match(globs, ps[i].as_str()) {
            let ghost o = strs(out@);
            out.push(ps[i].clone());
            proof {
                assert(strs(out@) =~= o.push(ps@[i as int]@));
            }
        } else {
            proof {
                assert(matching(pv.take(i + 1), strs(globs@)) =~= matching(pv.take(i as int), strs(globs@)));
            }
        }
        i = i + 1;
    }
    proof {
        assert(pv.take(i as int) =~= pv);
    }
    out
}

fn add_changed(acc: Vec<String>, ps: &Vec<String>, ignore: &Vec<String>, vault_prefix: &str) -> (r: Vec<String>)
    ensures
        strs(r@) == changed_set(strs(acc@), strs(ps@), strs(ignore@), vault_prefix@),
{
    let ghost pv = strs(ps@);
    let ghost a0 = strs(acc@);
    let ignore_ok = globs_parse(ignore);
    let mut acc = acc;
    let mut i: usize = 0;
    while i < ps.len()
        invariant
            i <= ps.len(),
            pv == strs(ps@),
            ignore_ok == all_parse(strs(ignore@)),
            strs(acc@) == changed_set(a0, pv.take(i as int), strs(ignore@), vault_prefix@),
        decreases ps.len() - i,
    {
        proof {
            assert(pv.take(i + 1).drop_last() =~= pv.take(i as int));
            assert(pv.take(i + 1).last() == ps@[i as int]@);
        }
        let p = ps[i].as_str();
        let keep = !p.is_empty() && !is_under(p, vault_prefix) && !(ignore_ok && globs_match(ignore, p));
        if keep {
            acc = crate::schema_ops::insert_sorted(acc, ps[i].clone());
        }
        i = i + 1;
    }
    proof {
        assert(pv.take(i as int) =~= pv);
    }
    acc
}

fn any_tracked(hits: &Vec<String>, in_git: &Vec<String>) -> (r: bool)
    ensures
        r == exists|q: int| 0 <= q < hits@.len() && strs(in_git@).contains(#[trigger] strs(hits@)[q]),
{
    let mut i: usize = 0;
    while i < hits.len()
        invariant
            i <= hits.len(),
            forall|q: int| 0 <= q < i ==> !strs(in_git@).contains(#[trigger] strs(hits@)[q]),
        decreases hits.len() - i,
    {
        if crate::model::list_contains(in_git, hits[i].as_str()) {
            assert(strs(in_git@).contains(strs(hits@)[i as int]));
            return true;
        }
        i = i + 1;
    }
    false
}

fn not_covered(changed: &Vec<String>, covering: &Vec<Vec<String>>) -> (r: Vec<String>)
    ensures
        strs(r@) == unclaimed(strs(changed@), covering@.map_values(|c: Vec<String>| strs(c@))),
{
    let ghost cv = strs(changed@);
    let ghost sets = covering@.map_values(|c: Vec<String>| strs(c@));
    let mut out: Vec<String> = Vec::new();
    let mut i: usize = 0;
    while i < changed.len()
        invariant
            i <= changed.len(),
            cv == strs(changed@),
            sets == covering@.map_values(|c: Vec<String>| strs(c@)),
            strs(out@) == unclaimed(cv.take(i as int), sets),
        decreases changed.len() - i,
    {
        proof {
            assert(cv.take(i + 1).drop_last() =~= cv.take(i as int));
            assert(cv.take(i + 1).last() == changed@[i as int]@);
        }
        let p = changed[i].as_str();
        let mut claimed = false;
        let mut c: usize = 0;
        while c < covering.len()
            invariant
                c <= covering.len(),
                sets == covering@.map_values(|c: Vec<String>| strs(c@)),
                claimed == exists|q: int| 0 <= q < c && any_match(#[trigger] sets[q], p@),
            decreases covering.len() - c,
        {
            let m = globs_match(&covering[c], p);
            proof {
                assert(sets[c as int] == strs(covering@[c as int]@));
                if claimed && !m {
                    let q = choose|q: int| 0 <= q < c && any_match(#[trigger] sets[q], p@);
                    assert(0 <= q < c + 1 && any_match(sets[q], p@));
                }
                if !claimed && !m {
                    assert forall|q: int| 0 <= q < c + 1 implies !any_match(#[trigger] sets[q], p@) by {}
                }
            }
            claimed = claimed || m;
            c = c + 1;
        }
        if !claimed {
            let ghost o = strs(out@);
            out.push(changed[i].clone());
            proof {
                assert(strs(out@) =~= o.push(changed@[i as int]@));
            }
        } else {
            proof {
                assert(unclaimed(cv.take(i + 1), sets) =~= unclaimed(cv.take(i as int), sets));
            }
        }
        i = i + 1;
    }
    proof {
        assert(cv.take(i as int) =~= cv);
    }
    out
}

/// Audit the vault against what git reports. `prefix` is the project's
/// path inside the repository and `vault_prefix` the vault's inside the
/// project; `committed` are the lines of `git diff --name-only`, `dirty`
/// those of `git status --porcelain`, `listed` those of `git ls-files`
/// (all repository-relative), and `disk` the project's files.
#[verifier::rlimit(40)]
pub fn audit(
    vault: &crate::vault::Vault,
    prefix: &str,
    vault_prefix: &str,
    committed: &Vec<String>,
    dirty: &Vec<String>,
    listed: &Vec<String>,
    disk: &Vec<String>,
) -> (r: DriftReport)
    ensures
        audit_ok(*vault, prefix@, vault_prefix@, strs(committed@), strs(dirty@), strs(listed@), strs(disk@), r),
{
    let ignore = &vault.schema.ignore;
    let c1 = project_lines(prefix, committed, false);
    let c2 = project_lines(prefix, dirty, true);
    let empty: Vec<String> = Vec::new();
    assert(strs(empty@) =~= Seq::<Seq<char>>::empty());
    let changed = add_changed(add_changed(empty, &c1, ignore, vault_prefix), &c2, ignore, vault_prefix);
    let in_git = project_lines(prefix, listed, false);
    let ghost cv = strs(changed@);
    let ghost tv = strs(in_git@);
    let ghost dv = strs(disk@);
    let es = &vault.entities;
    let mut stale: Vec<(String, Vec<String>)> = Vec::new();
    let mut dead: Vec<String> = Vec::new();
    let mut unanchored: usize = 0;
    let mut covering: Vec<Vec<String>> = Vec::new();
    let mut k: usize = 0;
    while k < es.len()
        invariant
            k <= es.len(),
            cv == strs(changed@),
            tv == strs(in_git@),
            dv == strs(disk@),
            unanchored <= k,
            ({
                let a = audit_upto(es@, cv, tv, dv, k as nat);
                &&& stale_view(stale@) == a.stale
                &&& strs(dead@) == a.dead
                &&& unanchored == a.unanchored
                &&& covering@.map_values(|c: Vec<String>| strs(c@)) == a.covering
            }),
        decreases es.len() - k,
    {
        let e = &es[k];
        let ghost src = strs(e.fm.source@);
        let ghost os = stale_view(stale@);
        let ghost od = strs(dead@);
        let ghost oc = covering@.map_values(|c: Vec<String>| strs(c@));
        if e.fm.source.len() == 0 {
            unanchored = unanchored + 1;
        } else if globs_parse(&e.fm.source) {
            let hits = matching_of(&changed, &e.fm.source);
            let disk_hits = matching_of(disk, &e.fm.source);
            let r = e.eref.to_string();
            if hits.len() > 0 {
                stale.push((r.clone(), hits));
                proof {
                    assert(stale_view(stale@) =~= os.push((canonical(e.eref@), matching(cv, src))));
                }
            }
            if disk_hits.len() > 0 && !any_tracked(&disk_hits, &in_git) {
                dead.push(r);
                proof {
                    assert(strs(dead@) =~= od.push(canonical(e.eref@)));
                }
            }
            covering.push(crate::model::clone_list(&e.fm.source));
            proof {
                assert(covering@.map_values(|c: Vec<String>| strs(c@)) =~= oc.push(src));
            }
        }
        k = k + 1;
    }
    let uncovered = not_covered(&changed, &covering);
    DriftReport { changed, stale, uncovered, dead_anchors: dead, unanchored }
}

// ───────────────────────────── the report ─────────────────────────────

pub const DEAD_ANCHOR_REASON: &'static str = "anchors resolve only to git-untracked/ignored paths — drift can never watch them";

pub const NO_COMMITS_NOTICE: &'static str = "the vault has no commits yet — only working-tree changes are considered";

pub open spec fn no_git_text(root: Seq<char>) -> Seq<char> {
    root + " is not inside a git repository — drift needs git history; freshness falls back to discipline and review"@
}

/// Why drift is unavailable for a project root outside any repository.
pub fn no_git_notice(root: &str) -> (r: String)
    ensures
        r@ == no_git_text(root@),
{
    crate::text::concat(
        root,
        " is not inside a git repository — drift needs git history; freshness falls back to discipline and review",
    )
}

/// The revision drift compares against: the one asked for, else the last
/// commit that touched the vault (git's output, trimmed), if any.
pub open spec fn base_of(since: Option<Seq<char>>, last_commit: Option<Seq<char>>) -> Option<Seq<char>> {
    match since {
        Some(s) => Some(s),
        None => match last_commit {
            Some(c) => if trim(c).len() > 0 {
                Some(trim(c))
            } else {
                None
            },
            None => None,
        },
    }
}

pub fn drift_base(since: Option<&str>, last_commit: Option<&str>) -> (r: Option<String>)
    ensures
        crate::model::opt_text(r) == base_of(crate::query::opt_str(since), crate::query::opt_str(last_commit)),
{
    match since {
        Some(s) => Some(crate::text::owned(s)),
        None => match last_commit {
            Some(c) => {
                let t = crate::text::trimmed(c);
                if t.as_str().is_empty() {
                    None
                } else {
                    Some(t)
                }
            },
            None => None,
        },
    }
}

/// The parts concatenated.
pub open spec fn concat_all(parts: Seq<Seq<char>>) -> Seq<char>
    decreases parts.len(),
{
    if parts.len() == 0 {
        seq![]
    } else {
        concat_all(parts.drop_last()) + parts.last()
    }
}

pub open spec fn stale_line(s: (Seq<char>, Seq<Seq<char>>)) -> Seq<char> {
    "  "@ + s.0 + "  ← "@ + join_with(s.1, ", "@) + "\n"@
}

pub open spec fn indented_line(p: Seq<char>) -> Seq<char> {
    "  "@ + p + "\n"@
}

pub open spec fn dead_line(r: Seq<char>) -> Seq<char> {
    "dead-anchor: "@ + r + " — "@ + DEAD_ANCHOR_REASON@ + "\n"@
}

/// The audit as text; `ratio` is the unanchored share as the caller
/// formats it.
pub open spec fn drift_text(notice: Option<Seq<char>>, stale: Seq<(Seq<char>, Seq<Seq<char>>)>, uncovered: Seq<Seq<char>>, dead: Seq<Seq<char>>, unanchored: nat, ratio: Seq<char>) -> Seq<char> {
    let n = match notice {
        Some(t) => "note: "@ + t + "\n"@,
        None => seq![],
    };
    let st = if stale.len() == 0 {
        "stale: none — no anchored entity's territory changed\n"@
    } else {
        "stale ("@ + crate::diag::decimal(stale.len()) + " — the map may misdescribe these):\n"@
            + concat_all(stale.map_values(|s: (Seq<char>, Seq<Seq<char>>)| stale_line(s)))
    };
    let un = if uncovered.len() == 0 {
        "uncovered: none\n"@
    } else {
        "uncovered ("@ + crate::diag::decimal(uncovered.len()) + " changed paths no entity claims — unmapped territory):\n"@
            + concat_all(uncovered.map_values(|p: Seq<char>| indented_line(p)))
    };
    n + st + un + concat_all(dead.map_values(|r: Seq<char>| dead_line(r))) + "unanchored: "@ + crate::diag::decimal(unanchored)
        + " entities ("@ + ratio + ") have no source anchors — known blindness, not cleanliness\n"@
}

fn append_lines(out: &mut String, items: &Vec<String>)
    ensures
        final(out)@ == old(out)@ + concat_all(strs(items@).map_values(|p: Seq<char>| indented_line(p))),
{
    let ghost start = out@;
    let ghost iv = strs(items@).map_values(|p: Seq<char>| indented_line(p));
    let mut i: usize = 0;
    while i < items.len()
        invariant
            i <= items.len(),
            iv == strs(items@).map_values(|p: Seq<char>| indented_line(p)),
            out@ == start + concat_all(iv.take(i as int)),
        decreases items.len() - i,
    {
        out.append("  ");
        out.append(items[i].as_str());
        out.append("\n");
        proof {
            assert(iv.take(i + 1).drop_last() =~= iv.take(i as int));
            assert(iv[i as int] == indented_line(items@[i as int]@));
        }
        i = i + 1;
    }
    proof {
        assert(iv.take(i as int) =~= iv);
    }
}

fn append_stale(out: &mut String, stale: &Vec<(String, Vec<String>)>)
    ensures
        final(out)@ == old(out)@ + (if stale@.len() == 0 {
            "stale: none — no anchored entity's territory changed\n"@
        } else {
            "stale ("@ + crate::diag::decimal(stale@.len()) + " — the map may misdescribe these):\n"@
                + concat_all(stale_view(stale@).map_values(|s: (Seq<char>, Seq<Seq<char>>)| stale_line(s)))
        }),
{
    let ghost start = out@;
    let ghost sv = stale_view(stale@);
    if stale.len() == 0 {
        out.append("stale: none — no anchored entity's territory changed\n");
    } else {
        out.append("stale (");
        out.append(crate::diag::decimal_string(stale.len()).as_str());
        out.append(" — the map may misdescribe these):\n");
        let ghost head = out@;
        let ghost lines = sv.map_values(|s: (Seq<char>, Seq<Seq<char>>)| stale_line(s));
        let mut i: usize = 0;
        while i < stale.len()
            invariant
                i <= stale.len(),
                sv == stale_view(stale@),
                lines == sv.map_values(|s: (Seq<char>, Seq<Seq<char>>)| stale_line(s)),
                out@ == head + concat_all(lines.take(i as int)),
            decreases stale.len() - i,
        {
            out.append("  ");
            out.append(stale[i].0.as_str());
            out.append("  ← ");
            out.append(crate::summary::join_strings(&stale[i].1, ", ").as_str());
            out.append("\n");
            proof {
                assert(lines.take(i + 1).drop_last() =~= lines.take(i as int));
                assert(sv[i as int] == (stale@[i as int].0@, strs(stale@[i as int].1@)));
            }
            i = i + 1;
        }
        proof {
            assert(lines.take(i as int) =~= lines);
        }
    }
}

fn append_dead(out: &mut String, dead: &Vec<String>)
    ensures
        final(out)@ == old(out)@ + concat_all(strs(dead@).map_values(|r: Seq<char>| dead_line(r))),
{
    let ghost start = out@;
    let ghost dl = strs(dead@).map_values(|r: Seq<char>| dead_line(r));
    let mut j: usize = 0;
    while j < dead.len()
        invariant
            j <= dead.len(),
            dl == strs(dead@).map_values(|r: Seq<char>| dead_line(r)),
            out@ == start + concat_all(dl.take(j as int)),
        decreases dead.len() - j,
    {
        out.append("dead-anchor: ");
        out.append(dead[j].as_str());
        out.append(" — ");
        out.append(DEAD_ANCHOR_REASON);
        out.append("\n");
        proof {
            assert(dl.take(j + 1).drop_last() =~= dl.take(j as int));
            assert(dl[j as int] == dead_line(dead@[j as int]@));
        }
        j = j + 1;
    }
    proof {
        assert(dl.take(j as int) =~= dl);
    }
}

/// Render the audit as text (the caller formats the unanchored share).
#[verifier::rlimit(50)]
#[verifier::spinoff_prover]
pub fn render_text(notice: Option<&str>, report: &DriftReport, ratio: &str) -> (r: String)
    ensures
        r@ == drift_text(
            crate::query::opt_str(notice),
            stale_view(report.stale@),
            strs(report.uncovered@),
            strs(report.dead_anchors@),
            report.unanchored as nat,
            ratio@,
        ),
{
    let mut out = String::new();
    match notice {
        Some(n) => {
            out.append("note: ");
            out.append(n);
            out.append("\n");
        },
        None => {},
    }
    let ghost after_notice = out@;
    let ghost sv = stale_view(report.stale@);
    append_stale(&mut out, &report.stale);
    let ghost after_stale = out@;
    if report.uncovered.len() == 0 {
        out.append("uncovered: none\n");
    } else {
        out.append("uncovered (");
        out.append(crate::diag::decimal_string(report.uncovered.len()).as_str());
        out.append(" changed paths no entity claims — unmapped territory):\n");
        append_lines(&mut out, &report.uncovered);
    }
    let ghost after_uncovered = out@;
    append_dead(&mut out, &report.dead_anchors);
    out.append("unanchored: ");
    out.append(crate::diag::decimal_string(report.unanchored).as_str());
    out.append(" entities (");
    out.append(ratio);
    out.append(") have no source anchors — known blindness, not cleanliness\n");
    proof {
        let spec_text = drift_text(
            crate::query::opt_str(notice),
            sv,
            strs(report.uncovered@),
            strs(report.dead_anchors@),
            report.unanchored as nat,
            ratio@,
        );
        assert(out@ =~= spec_text);
    }
    out
}
} // verus!
