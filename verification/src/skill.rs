//! The entity-map skill: its name, the distilled instructions served to MCP
//! clients, and where an install goes. Writing the files is the caller's.

use vstd::prelude::*;

verus! {

pub const SKILL_NAME: &'static str = "entity-map";

/// The compact distillation served as MCP `instructions`: the channel for
/// clients that inject it without an install.
pub const MCP_INSTRUCTIONS: &'static str = "Laplace serves entity maps (vaults): the authoritative picture of what exists in a project and how things connect. Query, don't guess: laplace_schema shows the vocabulary (kinds, relation reading-directions) — consult it before writing; laplace_search resolves names before you add or guess a ref; laplace_impact answers \"what does changing X touch\" (a candidate set — trust decays with distance); laplace_trace answers \"how are these connected\"; laplace_get / laplace_neighbors give detail and context. If your work adds, renames, removes, or re-relates an entity, update the map in the same turn via laplace_add / laplace_link / laplace_update — after direct file edits run laplace_validate. Several vaults may be loaded: laplace_vaults lists them; pass `vault` to select.";

/// The full skill document an install writes, and what `skill show` prints.
pub const SKILL_TEXT: &'static str = "---
name: entity-map
description: Keep the project's Laplace entity map true. Query it before guessing what exists or how things connect, and update it in the same turn as any work that changes what it describes.
---

# Entity map

A Laplace vault is the authoritative map of what exists in this project and
how it connects: one Markdown file with YAML frontmatter per entity, and a
`schema.yaml` that fixes the vocabulary (kinds and relation types). Query it
instead of reconstructing the picture from source; keep it true as you work.

## First use: initialize before consulting

Look for a vault before anything else (`laplace_vaults`, or a
`laplace/schema.yaml` under the project root). If a matching vault already exists, skip bootstrap
and consult it. When no matching vault exists, initialize only with
`laplace init --name <project>`, then edit the charter, kinds and relation
types in `schema.yaml` before adding a single entity. When more than one vault
is in reach, pass `--vault DIR` on the command line (or the `vault` argument
of the MCP tools) so that every read and write goes to the same map.

## Querying

- `laplace_schema`: the vocabulary; consult it before writing.
- `laplace_search`: resolve a name before adding an entity or guessing a ref.
- `laplace_impact`: what changing an entity touches. It is a candidate set,
  and trust decays with distance.
- `laplace_trace`: how two entities are connected.
- `laplace_get` and `laplace_neighbors`: detail and context.

## Populate in two passes

1. Entities first: add every entity you mean to map, with its title, tags and
   `source` anchors, and no relations yet.
2. Relations second: link entities once both ends exist, then run
   `laplace validate`.

Anchor each entity to the files it describes with narrow `source` globs. Never
give an entity a repository-wide `source` glob: every change would then look
relevant to it, and drift would stop meaning anything. A map with entities in
every directory is not proof of total repository coverage; it holds what was
curated and nothing more.

## Same-turn updates

If your work adds, renames, removes or re-relates an entity, update the map in
the same turn, through `laplace add`, `update`, `link`, `unlink`, `remove` or
`rename` (or the matching MCP tools). These check the whole graph before they
touch disk and refuse a write that would break it. After editing entity files
by hand, run `laplace validate`. For a long body, write it to a temporary
file first and pass that, rather than quoting it on the command line.

## Scouts are read-only

When work is split among several agents, scouts only query the map. One
single writer applies every change, so that two writers never race on the same
files.

## Commits

Map changes travel with the work they describe. Commit them together with that
work; do not commit merely because the map changed.

## Drift

Run `laplace drift` at the start of a session, before relying on a summary: it
compares `source` anchors with git history and reports stale entities and
uncovered files. `laplace drift` cannot audit a project-root vault (one kept at
the project root itself, not in a directory of its own): every path there
counts as map maintenance, so nothing is left to compare.
";

pub open spec fn no_target_message() -> Seq<char> {
    "no harness skill directories detected (looked for ~/.config/bingo, ./.bingo) — pass --to DIR"@
}

/// One file an install writes: the skill's directory under a target, the
/// `SKILL.md` path inside it, and the text that goes there.
#[derive(Debug, Clone)]
pub struct SkillFile {
    pub dir: String,
    pub path: String,
    pub text: String,
}

/// The skill directory and the `SKILL.md` path an install into `target` writes.
pub open spec fn skill_file_at(target: Seq<char>) -> (Seq<char>, Seq<char>) {
    let dir = crate::vault::join_text(target, SKILL_NAME@);
    (dir, crate::vault::join_text(dir, "SKILL.md"@))
}

/// `f` is the skill file for `target`, holding the full skill text.
pub open spec fn writes_skill(f: SkillFile, target: Seq<char>) -> bool {
    &&& (f.dir@, f.path@) == skill_file_at(target)
    &&& f.text@ == SKILL_TEXT@
}

fn skill_file(target: &str) -> (f: SkillFile)
    ensures
        writes_skill(f, target@),
{
    let dir = crate::vault::join_path_text(target, SKILL_NAME);
    let path = crate::vault::join_path_text(dir.as_str(), "SKILL.md");
    SkillFile { dir, path, text: crate::text::owned(SKILL_TEXT) }
}

/// The files an install writes: `<dir>/entity-map/SKILL.md`, holding the
/// skill text, for the directory asked for, else for each one detected, in
/// order (an older copy is overwritten). No directory at all is an error.
pub fn install(to: Option<&str>, detected: Vec<String>) -> (r: Result<Vec<SkillFile>, String>)
    ensures
        match to {
            Some(d) => r matches Ok(v) && v@.len() == 1 && writes_skill(v@[0], d@),
            None => if detected@.len() == 0 {
                r matches Err(m) && m@ == no_target_message()
            } else {
                r matches Ok(v) && v@.len() == detected@.len() && forall|i: int|
                    0 <= i < v@.len() ==> writes_skill(#[trigger] v@[i], detected@[i]@)
            },
        },
{
    match to {
        Some(d) => {
            let mut v: Vec<SkillFile> = Vec::new();
            v.push(skill_file(d));
            Ok(v)
        },
        None => {
            if detected.len() == 0 {
                Err(crate::text::owned(
                    "no harness skill directories detected (looked for ~/.config/bingo, ./.bingo) — pass --to DIR",
                ))
            } else {
                let mut v: Vec<SkillFile> = Vec::new();
                let mut i: usize = 0;
                while i < detected.len()
                    invariant
                        i <= detected@.len(),
                        v@.len() == i,
                        forall|j: int| 0 <= j < i ==> writes_skill(#[trigger] v@[j], detected@[j]@),
                    decreases detected@.len() - i,
                {
                    v.push(skill_file(detected[i].as_str()));
                    i = i + 1;
                }
                Ok(v)
            }
        },
    }
}

/// A candidate install place: the directory whose presence marks the
/// harness, and the skills directory to install into.
pub open spec fn candidate(dir: Seq<char>) -> (Seq<char>, Seq<char>) {
    (dir, crate::vault::join_text(dir, "skills"@))
}

/// Where harness skill directories may be, in the order they are tried:
/// `bingo` under the config directory (`config`, else `~/.config`) when
/// there is a home directory, then `./.bingo` in the working directory.
pub open spec fn candidates_of(home: Option<Seq<char>>, config: Option<Seq<char>>, cwd: Seq<char>) -> Seq<(Seq<char>, Seq<char>)> {
    let local = seq![candidate(crate::vault::join_text(cwd, ".bingo"@))];
    match home {
        Some(h) => {
            let cfg = match config {
                Some(c) => c,
                None => crate::vault::join_text(h, ".config"@),
            };
            seq![candidate(crate::vault::join_text(cfg, "bingo"@))] + local
        },
        None => local,
    }
}

fn candidate_of(dir: String) -> (r: (String, String))
    ensures
        (r.0@, r.1@) == candidate(dir@),
{
    let skills = crate::vault::join_path_text(dir.as_str(), "skills");
    (dir, skills)
}

/// The candidate install places; the caller keeps those whose marking
/// directory exists.
pub fn skill_candidates(home: Option<&str>, config: Option<&str>, cwd: &str) -> (r: Vec<(String, String)>)
    ensures
        r@.map_values(|p: (String, String)| (p.0@, p.1@)) == candidates_of(
            crate::query::opt_str(home),
            crate::query::opt_str(config),
            cwd@,
        ),
{
    let mut out: Vec<(String, String)> = Vec::new();
    match home {
        Some(h) => {
            let cfg = match config {
                Some(c) => crate::text::owned(c),
                None => crate::vault::join_path_text(h, ".config"),
            };
            out.push(candidate_of(crate::vault::join_path_text(cfg.as_str(), "bingo")));
        },
        None => {},
    }
    out.push(candidate_of(crate::vault::join_path_text(cwd, ".bingo")));
    proof {
        assert(out@.map_values(|p: (String, String)| (p.0@, p.1@)) =~= candidates_of(
            crate::query::opt_str(home),
            crate::query::opt_str(config),
            cwd@,
        ));
    }
    out
}

} // verus!
