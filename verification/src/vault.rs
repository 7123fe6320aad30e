//! The vault: discovery, entity files, and assembling what was read into a
//! `Vault`. Loading is total: structural problems become diagnostics, so that
//! validation can report all of them.

use vstd::prelude::*;
use crate::diag::{decimal, diags_view, opt_view, Diagnostic, DiagnosticV, Severity};
use crate::model::{
    nfc, nfc_of, Entity, EntityRef, EntityV, FrontMatter, FrontMatterV, Schema, SchemaV,
    API_VERSION,
};
use crate::sort::{
    empty_key, is_permutation_of_range, is_stably_sorted, keys_view, push_text, sort_indices,
    sorted_positions,
    KeyPartV, SortKey,
};
use crate::text::{
    blank, chars_of, concat, concat3, is_blank, owned, starts_with, starts_with_str,
    string_of_range,
};

verus! {

// ───────────────────────────── paths ─────────────────────────────

/// One component of a path, as `Path::components` yields it.
pub enum PathPart {
    Root,
    Cur,
    Parent,
    Normal(String),
}

pub enum PathPartV {
    Root,
    Cur,
    Parent,
    Normal(Seq<char>),
}

impl View for PathPart {
    type V = PathPartV;

    open spec fn view(&self) -> PathPartV {
        match self {
            PathPart::Root => PathPartV::Root,
            PathPart::Cur => PathPartV::Cur,
            PathPart::Parent => PathPartV::Parent,
            PathPart::Normal(s) => PathPartV::Normal(s@),
        }
    }
}

impl PathPart {
    pub fn duplicate(&self) -> (r: Self)
        ensures
            r@ == self@,
    {
        match self {
            PathPart::Root => PathPart::Root,
            PathPart::Cur => PathPart::Cur,
            PathPart::Parent => PathPart::Parent,
            PathPart::Normal(s) => PathPart::Normal(s.clone()),
        }
    }
}

pub open spec fn parts_view(v: Seq<PathPart>) -> Seq<PathPartV> {
    v.map_values(|p: PathPart| p@)
}

/// Can `PathBuf::pop` remove a component? Not from an empty path, nor from `/`.
pub open spec fn can_pop(out: Seq<PathPartV>) -> bool {
    !(out.len() == 0 || (out.len() == 1 && out[0] is Root))
}

/// Lexical normalization: `..` pops a component (or is kept when nothing can
/// be popped), `.` vanishes, everything else is pushed.
pub open spec fn normalized(parts: Seq<PathPartV>) -> Seq<PathPartV>
    decreases parts.len(),
{
    if parts.len() == 0 {
        seq![]
    } else {
        let out = normalized(parts.drop_last());
        match parts.last() {
            PathPartV::Parent => if can_pop(out) {
                out.drop_last()
            } else {
                out.push(PathPartV::Parent)
            },
            PathPartV::Cur => out,
            p => out.push(p),
        }
    }
}

pub fn normalize(parts: &Vec<PathPart>) -> (r: Vec<PathPart>)
    ensures
        parts_view(r@) == normalized(parts_view(parts@)),
{
    let mut out: Vec<PathPart> = Vec::new();
    let mut i: usize = 0;
    while i < parts.len()
        invariant
            i <= parts.len(),
            parts_view(out@) == normalized(parts_view(parts@.take(i as int))),
        decreases parts.len() - i,
    {
        proof {
            assert(parts_view(parts@.take(i + 1)).drop_last() =~= parts_view(
                parts@.take(i as int),
            ));
        }
        match &parts[i] {
            PathPart::Parent => {
                let poppable = !(out.len() == 0 || (out.len() == 1 && matches!(out[0], PathPart::Root)));
                proof {
                    if out.len() == 1 {
                        assert(parts_view(out@)[0] == out@[0]@);
                    }
                }
                if poppable {
                    let ghost prev = out@;
                    out.pop();
                    assert(out@ =~= prev.drop_last());
                    assert(parts_view(out@) =~= parts_view(prev).drop_last());
                } else {
                    out.push(PathPart::Parent);
                }
            },
            PathPart::Cur => {},
            p => {
                out.push(p.duplicate());
            },
        }
        i = i + 1;
        assert(parts_view(out@) =~= normalized(parts_view(parts@.take(i as int))));
    }
    assert(parts@.take(parts.len() as int) =~= parts@);
    out
}


/// `dir` joined with `rel`: an absolute `rel` replaces `dir`.
pub open spec fn joined(dir: Seq<PathPartV>, rel: Seq<PathPartV>) -> Seq<PathPartV> {
    if rel.len() > 0 && rel[0] is Root {
        rel
    } else {
        dir + rel
    }
}

pub fn join_parts(dir: &Vec<PathPart>, rel: &Vec<PathPart>) -> (r: Vec<PathPart>)
    ensures
        parts_view(r@) == joined(parts_view(dir@), parts_view(rel@)),
{
    let mut out: Vec<PathPart> = Vec::new();
    let absolute = rel.len() > 0 && matches!(rel[0], PathPart::Root);
    proof {
        if rel.len() > 0 {
            assert(parts_view(rel@)[0] == rel@[0]@);
        }
    }
    if !absolute {
        let mut i: usize = 0;
        while i < dir.len()
            invariant
                i <= dir.len(),
                out@.len() == i,
                forall|j: int| 0 <= j < i ==> (#[trigger] out@[j])@ == dir@[j]@,
            decreases dir.len() - i,
        {
            out.push(dir[i].duplicate());
            i = i + 1;
        }
    }
    let base = out.len();
    let mut i: usize = 0;
    while i < rel.len()
        invariant
            i <= rel.len(),
            out@.len() == base + i,
            base == if absolute { 0 } else { dir@.len() },
            !absolute ==> forall|j: int| 0 <= j < base ==> (#[trigger] out@[j])@ == dir@[j]@,
            forall|j: int| 0 <= j < i ==> (#[trigger] out@[base + j])@ == rel@[j]@,
        decreases rel.len() - i,
    {
        out.push(rel[i].duplicate());
        i = i + 1;
    }
    proof {
        if absolute {
            assert forall|k: int| 0 <= k < out@.len() implies parts_view(out@)[k] == parts_view(
                rel@,
            )[k] by {
                assert(out@[base + k]@ == rel@[k]@);
            }
            assert(parts_view(out@) =~= parts_view(rel@));
        } else {
            let t = parts_view(dir@) + parts_view(rel@);
            assert forall|k: int| 0 <= k < out@.len() implies parts_view(out@)[k] == t[k] by {
                if k < base {
                    assert(out@[k]@ == dir@[k]@);
                } else {
                    assert(out@[base + (k - base)]@ == rel@[k - base]@);
                }
            }
            assert(parts_view(out@) =~= t);
        }
    }
    out
}

pub open spec fn part_text(p: PathPartV) -> Seq<char> {
    match p {
        PathPartV::Root => seq!['/'],
        PathPartV::Cur => seq!['.'],
        PathPartV::Parent => seq!['.', '.'],
        PathPartV::Normal(s) => s,
    }
}

/// Components joined by `/`.
pub open spec fn joined_text(parts: Seq<PathPartV>) -> Seq<char>
    decreases parts.len(),
{
    if parts.len() == 0 {
        seq![]
    } else if parts.len() == 1 {
        part_text(parts[0])
    } else {
        joined_text(parts.drop_last()) + seq!['/'] + part_text(parts.last())
    }
}

/// How a path shows: `/` for the root, components separated by `/`.
pub open spec fn display_text(parts: Seq<PathPartV>) -> Seq<char> {
    if parts.len() > 0 && parts[0] is Root {
        seq!['/'] + joined_text(parts.drop_first())
    } else {
        joined_text(parts)
    }
}

fn push_part_text(s: &mut String, p: &PathPart)
    ensures
        final(s)@ == old(s)@ + part_text(p@),
{
    match p {
        PathPart::Root => s.push('/'),
        PathPart::Cur => s.push('.'),
        PathPart::Parent => {
            s.push('.');
            s.push('.');
        },
        PathPart::Normal(n) => s.append(n.as_str()),
    }
    assert(s@ =~= old(s)@ + part_text(p@));
}

pub fn display_path(parts: &Vec<PathPart>) -> (r: String)
    ensures
        r@ == display_text(parts_view(parts@)),
{
    let ghost pv = parts_view(parts@);
    let mut out = String::new();
    let mut start: usize = 0;
    if parts.len() > 0 && matches!(parts[0], PathPart::Root) {
        out.push('/');
        start = 1;
    }
    proof {
        if parts.len() > 0 {
            assert(pv[0] == parts@[0]@);
        }
    }
    let ghost rest = pv.skip(start as int);
    let ghost prefix = out@;
    let mut i: usize = start;
    while i < parts.len()
        invariant
            start <= i <= parts.len(),
            start <= 1,
            pv == parts_view(parts@),
            rest == pv.skip(start as int),
            out@ == prefix + joined_text(rest.take(i - start)),
        decreases parts.len() - i,
    {
        if i > start {
            out.push('/');
        }
        push_part_text(&mut out, &parts[i]);
        proof {
            let t = rest.take(i + 1 - start);
            assert(t.drop_last() =~= rest.take(i - start));
            assert(t.last() == parts@[i as int]@);
        }
        i = i + 1;
    }
    proof {
        assert(rest.take(parts.len() - start) =~= rest);
        if parts.len() > 0 && pv[0] is Root {
            assert(rest =~= pv.drop_first());
        } else {
            assert(rest =~= pv);
        }
    }
    out
}

/// `dir` joined with a relative, non-empty `rel` as the text of a path.
pub open spec fn join_text(dir: Seq<char>, rel: Seq<char>) -> Seq<char> {
    if dir.len() == 0 {
        rel
    } else if dir.last() == '/' {
        dir + rel
    } else {
        dir + seq!['/'] + rel
    }
}

pub fn join_path_text(dir: &str, rel: &str) -> (r: String)
    ensures
        r@ == join_text(dir@, rel@),
{
    let d = chars_of(dir);
    if d.len() == 0 {
        owned(rel)
    } else if d[d.len() - 1] == '/' {
        concat(dir, rel)
    } else {
        let mut s = owned(dir);
        s.push('/');
        s.append(rel);
        s
    }
}


// ───────────────────────────── entity files ─────────────────────────────

pub open spec fn fence_open_nl() -> Seq<char> {
    seq!['-', '-', '-', '\n']
}

pub open spec fn fence_open_crlf() -> Seq<char> {
    seq!['-', '-', '-', '\r', '\n']
}

pub open spec fn fence_close() -> Seq<char> {
    seq!['\n', '-', '-', '-']
}

/// What may follow a closing fence: the end, or a line ending.
pub open spec fn is_fence_end(after: Seq<char>) -> bool {
    after.len() == 0 || after[0] == '\n' || (after.len() >= 2 && after[0] == '\r' && after[1]
        == '\n')
}

pub open spec fn strip_newline(after: Seq<char>) -> Seq<char> {
    if after.len() > 0 && after[0] == '\n' {
        after.drop_first()
    } else {
        after
    }
}

/// A closing `\n---` fence starts at `i`.
pub open spec fn closing_at(rest: Seq<char>, i: int) -> bool {
    0 <= i && i + 4 <= rest.len() && rest.subrange(i, i + 4) == fence_close() && is_fence_end(
        rest.skip(i + 4),
    )
}

pub open spec fn first_closing(rest: Seq<char>, from: int) -> Option<int>
    decreases rest.len() - from,
{
    if from < 0 || from + 4 > rest.len() {
        None
    } else if closing_at(rest, from) {
        Some(from)
    } else {
        first_closing(rest, from + 1)
    }
}

pub open spec fn never_closed_message() -> Seq<char> {
    "frontmatter fence `---` is never closed"@
}

/// Split `---\n<yaml>\n---\n<body>`; a file not starting with `---` is all body.
pub open spec fn split_spec(raw: Seq<char>) -> Result<(Seq<char>, Seq<char>), Seq<char>> {
    let open_len: int = if starts_with(raw, fence_open_nl()) {
        4
    } else if starts_with(raw, fence_open_crlf()) {
        5
    } else {
        0
    };
    if open_len == 0 {
        Ok((seq![], raw))
    } else {
        let rest = raw.skip(open_len);
        if starts_with(rest, seq!['-', '-', '-']) && is_fence_end(rest.skip(3)) {
            Ok((seq![], strip_newline(rest.skip(3))))
        } else {
            match first_closing(rest, 0) {
                Some(i) => Ok((rest.take(i), strip_newline(rest.skip(i + 4)))),
                None => Err(never_closed_message()),
            }
        }
    }
}

fn fence_end_at(v: &Vec<char>, k: usize) -> (r: bool)
    requires
        k <= v.len(),
    ensures
        r == is_fence_end(v@.skip(k as int)),
{
    let ghost a = v@.skip(k as int);
    if k == v.len() {
        return true;
    }
    assert(a[0] == v@[k as int]);
    if v[k] == '\n' {
        return true;
    }
    if k + 1 < v.len() {
        assert(a[1] == v@[k + 1]);
        v[k] == '\r' && v[k + 1] == '\n'
    } else {
        false
    }
}

fn strip_newline_from(v: &Vec<char>, k: usize) -> (r: String)
    requires
        k <= v.len(),
    ensures
        r@ == strip_newline(v@.skip(k as int)),
{
    let ghost a = v@.skip(k as int);
    if k < v.len() && v[k] == '\n' {
        assert(a.drop_first() =~= v@.subrange(k + 1, v.len() as int));
        string_of_range(v, k + 1, v.len())
    } else {
        assert(a =~= v@.subrange(k as int, v.len() as int));
        string_of_range(v, k, v.len())
    }
}

/// Split an entity file into frontmatter text and body.
pub fn split_frontmatter(raw: &str) -> (r: Result<(String, String), String>)
    ensures
        match r {
            Ok((f, b)) => split_spec(raw@) == Ok::<(Seq<char>, Seq<char>), Seq<char>>((f@, b@)),
            Err(m) => split_spec(raw@) == Err::<(Seq<char>, Seq<char>), Seq<char>>(m@),
        },
{
    let v = chars_of(raw);
    let ghost r = raw@;
    let open_nl = v.len() >= 4 && v[0] == '-' && v[1] == '-' && v[2] == '-' && v[3] == '\n';
    let open_crlf = v.len() >= 5 && v[0] == '-' && v[1] == '-' && v[2] == '-' && v[3] == '\r'
        && v[4] == '\n';
    proof {
        if open_nl {
            assert(r.take(4) =~= fence_open_nl());
        } else if v.len() >= 4 && r.take(4) == fence_open_nl() {
            assert(r.take(4)[3] == r[3]);
        }
        if open_crlf {
            assert(r.take(5) =~= fence_open_crlf());
        } else if v.len() >= 5 && r.take(5) == fence_open_crlf() {
            assert(r.take(5)[3] == r[3]);
            assert(r.take(5)[4] == r[4]);
        }
    }
    let k: usize = if open_nl {
        4
    } else if open_crlf {
        5
    } else {
        0
    };
    if k == 0 {
        return Ok((String::new(), owned(raw)));
    }
    let ghost rest = r.skip(k as int);
    // empty frontmatter: the closing fence follows the opening one directly
    if v.len() >= k + 3 && v[k] == '-' && v[k + 1] == '-' && v[k + 2] == '-' && fence_end_at(
        &v,
        k + 3,
    ) {
        proof {
            assert(rest.take(3) =~= seq!['-', '-', '-']);
            assert(rest.skip(3) =~= v@.skip(k + 3));
        }
        return Ok((String::new(), strip_newline_from(&v, k + 3)));
    }
    proof {
        if starts_with(rest, seq!['-', '-', '-']) {
            assert(rest[0] == v@[k as int] && rest[1] == v@[k + 1] && rest[2] == v@[k + 2]);
            assert(rest.skip(3) =~= v@.skip(k + 3));
        }
    }
    let mut i: usize = 0;
    while k + i + 4 <= v.len()
        invariant
            k + i <= v.len() <= isize::MAX,
            v@ == r,
            r == raw@,
            k > 0,
            k == (if starts_with(r, fence_open_nl()) {
                4int
            } else if starts_with(r, fence_open_crlf()) {
                5int
            } else {
                0int
            }),
            !(starts_with(rest, seq!['-', '-', '-']) && is_fence_end(rest.skip(3))),
            rest == r.skip(k as int),
            rest == v@.skip(k as int),
            first_closing(rest, 0) == first_closing(rest, i as int),
        decreases v.len() - i,
    {
        let at = k + i;
        let closes = v[at] == '\n' && v[at + 1] == '-' && v[at + 2] == '-' && v[at + 3] == '-'
            && fence_end_at(&v, at + 4);
        proof {
            assert(rest.skip(i + 4) =~= v@.skip(at + 4));
            if v[at as int] == '\n' && v[at + 1] == '-' && v[at + 2] == '-' && v[at + 3] == '-' {
                assert(rest.subrange(i as int, i + 4) =~= fence_close());
            }
            if rest.subrange(i as int, i + 4) == fence_close() {
                assert(rest.subrange(i as int, i + 4)[0] == v@[at as int]);
                assert(rest.subrange(i as int, i + 4)[1] == v@[at + 1]);
                assert(rest.subrange(i as int, i + 4)[2] == v@[at + 2]);
                assert(rest.subrange(i as int, i + 4)[3] == v@[at + 3]);
            }
        }
        if closes {
            assert(closing_at(rest, i as int));
            assert(first_closing(rest, i as int) == Some(i as int));
            assert(rest.take(i as int) =~= v@.subrange(k as int, at as int));
            return Ok((string_of_range(&v, k, at), strip_newline_from(&v, at + 4)));
        }
        proof {
            if closing_at(rest, i as int) {
                assert(rest.subrange(i as int, i + 4)[0] == v@[at as int]);
                assert(rest.subrange(i as int, i + 4)[1] == v@[at + 1]);
                assert(rest.subrange(i as int, i + 4)[2] == v@[at + 2]);
                assert(rest.subrange(i as int, i + 4)[3] == v@[at + 3]);
            }
        }
        i = i + 1;
    }
    Err(owned("frontmatter fence `---` is never closed"))
}

/// The file stem: the name without `.md`, NFC-normalized.
pub open spec fn stem_text(f: Seq<char>) -> Seq<char> {
    nfc_of(
        if f.len() >= 3 && f.skip(f.len() - 3) == seq!['.', 'm', 'd'] {
            f.take(f.len() - 3)
        } else {
            f
        },
    )
}

/// What listing the vault does with one directory entry.
#[derive(PartialEq, Eq, Structural, Clone, Copy, Debug)]
pub enum EntryAction {
    /// Hidden, or not Markdown: left alone.
    Skip,
    /// A directory: listed in turn.
    Descend,
    /// A Markdown file below a kind directory: read as an entity.
    Read,
    /// Markdown at the vault root: reported, not read.
    Misplaced,
}

pub open spec fn entry_action(name: Seq<char>, is_dir: bool, at_root: bool) -> EntryAction {
    if name.len() > 0 && name[0] == '.' {
        EntryAction::Skip
    } else if is_dir {
        EntryAction::Descend
    } else if name.len() >= 3 && name.skip(name.len() - 3) == ".md"@ {
        if at_root {
            EntryAction::Misplaced
        } else {
            EntryAction::Read
        }
    } else {
        EntryAction::Skip
    }
}

/// Decide what to do with an entry named `name` found while listing the
/// vault (`at_root`: directly in the vault directory).
pub fn classify_entry(name: &str, is_dir: bool, at_root: bool) -> (r: EntryAction)
    ensures
        r == entry_action(name@, is_dir, at_root),
{
    let v = crate::text::chars_of(name);
    if v.len() > 0 && v[0] == '.' {
        return EntryAction::Skip;
    }
    if is_dir {
        return EntryAction::Descend;
    }
    let md = crate::text::chars_of(".md");
    proof {
        reveal_strlit(".md");
    }
    if v.len() >= 3 && crate::text::matches_at(&v, &md, v.len() - 3) {
        assert(v@.subrange(v.len() - 3, v.len() as int) =~= v@.skip(v.len() - 3));
        if at_root {
            EntryAction::Misplaced
        } else {
            EntryAction::Read
        }
    } else {
        proof {
            if v.len() >= 3 {
                assert(v@.subrange(v.len() - 3, v.len() as int) =~= v@.skip(v.len() - 3));
            }
        }
        EntryAction::Skip
    }
}

pub open spec fn misplaced_message() -> Seq<char> {
    "markdown at the vault root: entities live under <kind>/"@
}

/// The finding for Markdown file `name` at the vault root.
pub fn misplaced(name: &str) -> (d: Diagnostic)
    ensures
        d@ == error_at("bad-layout"@, name@, misplaced_message()),
{
    Diagnostic::err("bad-layout", Some(owned(name)), owned("markdown at the vault root: entities live under <kind>/"))
}

pub fn stem(file_name: &str) -> (r: String)
    ensures
        r@ == stem_text(file_name@),
{
    let v = chars_of(file_name);
    let n = v.len();
    let cut = n >= 3 && v[n - 3] == '.' && v[n - 2] == 'm' && v[n - 1] == 'd';
    proof {
        if n >= 3 {
            let t = v@.skip(n - 3);
            if cut {
                assert(t =~= seq!['.', 'm', 'd']);
            } else {
                if t == seq!['.', 'm', 'd'] {
                    assert(t[0] == v@[n - 3] && t[1] == v@[n - 2] && t[2] == v@[n - 1]);
                }
            }
        }
    }
    let base = if cut {
        assert(v@.subrange(0, n - 3) =~= v@.take(n - 3));
        string_of_range(&v, 0, n - 3)
    } else {
        assert(v@.subrange(0, n as int) =~= v@);
        string_of_range(&v, 0, n)
    };
    nfc(base.as_str())
}

/// Components joined by `/`.
pub open spec fn slash_text(parts: Seq<Seq<char>>) -> Seq<char>
    decreases parts.len(),
{
    if parts.len() == 0 {
        seq![]
    } else if parts.len() == 1 {
        parts[0]
    } else {
        slash_text(parts.drop_last()) + seq!['/'] + parts.last()
    }
}

pub open spec fn strings_view(v: Seq<String>) -> Seq<Seq<char>> {
    v.map_values(|s: String| s@)
}

pub fn slash_join(parts: &Vec<String>) -> (r: String)
    ensures
        r@ == slash_text(strings_view(parts@)),
{
    let ghost pv = strings_view(parts@);
    let mut out = String::new();
    let mut i: usize = 0;
    while i < parts.len()
        invariant
            i <= parts.len(),
            pv == strings_view(parts@),
            out@ == slash_text(pv.take(i as int)),
        decreases parts.len() - i,
    {
        if i > 0 {
            out.push('/');
        }
        out.append(parts[i].as_str());
        proof {
            let t = pv.take(i + 1);
            assert(t.drop_last() =~= pv.take(i as int));
            assert(t.last() == parts@[i as int]@);
            if i == 0 {
                assert(out@ =~= t[0]);
            }
        }
        i = i + 1;
    }
    assert(pv.take(parts.len() as int) =~= pv);
    out
}

/// What the YAML reader made of the frontmatter text.
pub enum FmParse {
    Parsed(FrontMatter),
    Failed { message: String, line: Option<usize> },
}

pub enum FmParseV {
    Parsed(FrontMatterV),
    Failed { message: Seq<char>, line: Option<usize> },
}

impl View for FmParse {
    type V = FmParseV;

    open spec fn view(&self) -> FmParseV {
        match self {
            FmParse::Parsed(f) => FmParseV::Parsed(f@),
            FmParse::Failed { message, line } => FmParseV::Failed { message: message@, line: *line },
        }
    }
}

pub open spec fn empty_frontmatter() -> FrontMatterV {
    FrontMatterV {
        title: None,
        tags: seq![],
        lifecycle: None,
        relations: seq![],
        source: seq![],
        kind: None,
        name: None,
        extra: seq![],
    }
}

pub open spec fn error_at(code: Seq<char>, file: Seq<char>, message: Seq<char>) -> DiagnosticV {
    DiagnosticV {
        severity: Severity::Error,
        code,
        file: Some(file),
        line: None,
        entity: None,
        path: None,
        message,
        suggestion: None,
    }
}

pub open spec fn layout_message(n: nat) -> Seq<char> {
    "entity files live at <kind>/<name>.md or <kind>/<namespace>/<name>.md, not "@ + decimal(n)
        + " levels deep"@
}

/// The identity a vault-relative path gives: `<kind>/<name>.md` or
/// `<kind>/<namespace>/<name>.md`.
pub open spec fn path_identity(rel: Seq<Seq<char>>) -> (Seq<char>, Seq<char>, Seq<char>) {
    if rel.len() == 2 {
        (nfc_of(rel[0]), nfc_of(crate::model::DEFAULT_NS@), nfc_of(stem_text(rel[1])))
    } else {
        (nfc_of(rel[0]), nfc_of(rel[1]), nfc_of(stem_text(rel[2])))
    }
}

/// What parsing one entity file yields: the entity (if any) and the findings.
pub open spec fn parse_entity_spec(rel: Seq<Seq<char>>, raw: Seq<char>, fm: FmParseV) -> (
    Option<EntityV>,
    Seq<DiagnosticV>,
) {
    let file = slash_text(rel);
    if rel.len() != 2 && rel.len() != 3 {
        (None, seq![error_at("bad-layout"@, file, layout_message(rel.len()))])
    } else {
        let eref = path_identity(rel);
        match split_spec(raw) {
            Err(m) => (None, seq![error_at("bad-frontmatter"@, file, m)]),
            Ok((fm_text, body)) => {
                let parsed: Result<FrontMatterV, (Seq<char>, Option<usize>)> = if is_blank(
                    fm_text,
                ) {
                    Ok(empty_frontmatter())
                } else {
                    match fm {
                        FmParseV::Parsed(f) => Ok(f),
                        FmParseV::Failed { message, line } => Err((message, line)),
                    }
                };
                match parsed {
                    Err((m, l)) => (
                        None,
                        seq![
                            DiagnosticV {
                                severity: Severity::Error,
                                code: "bad-frontmatter"@,
                                file: Some(file),
                                line: l,
                                entity: Some(crate::model::canonical(eref)),
                                path: None,
                                message: "frontmatter does not parse: "@ + m,
                                suggestion: None,
                            },
                        ],
                    ),
                    Ok(f) => {
                        let identity = if f.kind is Some || f.name is Some {
                            seq![
                                DiagnosticV {
                                    severity: Severity::Error,
                                    code: "identity-in-frontmatter"@,
                                    file: Some(file),
                                    line: None,
                                    entity: Some(crate::model::canonical(eref)),
                                    path: None,
                                    message: identity_message(),
                                    suggestion: Some("delete the kind:/name: keys"@),
                                },
                            ]
                        } else {
                            Seq::<DiagnosticV>::empty()
                        };
                        let empty = if is_blank(body) {
                            seq![
                                DiagnosticV {
                                    severity: Severity::Warning,
                                    code: "empty-body"@,
                                    file: Some(file),
                                    line: None,
                                    entity: Some(crate::model::canonical(eref)),
                                    path: None,
                                    message: "no description: the body is the entity's prose"@,
                                    suggestion: None,
                                },
                            ]
                        } else {
                            Seq::<DiagnosticV>::empty()
                        };
                        (
                            Some(EntityV { eref, file, fm: f, body, raw }),
                            identity + empty,
                        )
                    },
                }
            },
        }
    }
}

pub open spec fn identity_message() -> Seq<char> {
    "path is identity: kind and name derive from the file path and must not appear in frontmatter"@
}

pub open spec fn opt_entity_view(e: Option<Entity>) -> Option<EntityV> {
    match e {
        Some(x) => Some(x@),
        None => None,
    }
}

/// Parse one entity file from its vault-relative path components, its raw
/// text, and what the YAML reader made of its frontmatter text. Total:
/// problems come back as diagnostics; `None` means no entity.
pub fn parse_entity(rel: &Vec<String>, raw: String, fm: FmParse) -> (r: (
    Option<Entity>,
    Vec<Diagnostic>,
))
    ensures
        (opt_entity_view(r.0), diags_view(r.1@)) == parse_entity_spec(
            strings_view(rel@),
            raw@,
            fm@,
        ),
{
    let ghost relv = strings_view(rel@);
    let file = slash_join(rel);
    let mut diags: Vec<Diagnostic> = Vec::new();
    let n = rel.len();
    if n != 2 && n != 3 {
        let mut m = owned(
            "entity files live at <kind>/<name>.md or <kind>/<namespace>/<name>.md, not ",
        );
        m.append(crate::diag::decimal_string(n).as_str());
        m.append(" levels deep");
        diags.push(Diagnostic::err("bad-layout", Some(file), m));
        assert(diags_view(diags@) =~= parse_entity_spec(relv, raw@, fm@).1);
        return (None, diags);
    }
    let eref = if n == 2 {
        let st = stem(rel[1].as_str());
        assert(rel@[1]@ == relv[1]);
        EntityRef::new(rel[0].as_str(), crate::model::DEFAULT_NS, st.as_str())
    } else {
        let st = stem(rel[2].as_str());
        assert(rel@[2]@ == relv[2]);
        EntityRef::new(rel[0].as_str(), rel[1].as_str(), st.as_str())
    };
    assert(eref@ == path_identity(relv));
    let (fm_text, body) = match split_frontmatter(raw.as_str()) {
        Ok(parts) => parts,
        Err(m) => {
            diags.push(Diagnostic::err("bad-frontmatter", Some(file), m));
            assert(diags_view(diags@) =~= parse_entity_spec(relv, raw@, fm@).1);
            return (None, diags);
        },
    };
    let parsed: FrontMatter = if blank(fm_text.as_str()) {
        FrontMatter::default()
    } else {
        match fm {
            FmParse::Parsed(f) => f,
            FmParse::Failed { message, line } => {
                diags.push(
                    Diagnostic {
                        severity: Severity::Error,
                        code: "bad-frontmatter",
                        file: Some(file),
                        line,
                        entity: Some(eref.to_string()),
                        path: None,
                        message: concat("frontmatter does not parse: ", message.as_str()),
                        suggestion: None,
                    },
                );
                assert(diags_view(diags@) =~= parse_entity_spec(relv, raw@, fm@).1);
                return (None, diags);
            },
        }
    };
    if parsed.kind.is_some() || parsed.name.is_some() {
        diags.push(
            Diagnostic {
                severity: Severity::Error,
                code: "identity-in-frontmatter",
                file: Some(file.clone()),
                line: None,
                entity: Some(eref.to_string()),
                path: None,
                message: owned(
                    "path is identity: kind and name derive from the file path and must not appear in frontmatter",
                ),
                suggestion: Some(owned("delete the kind:/name: keys")),
            },
        );
    }
    if blank(body.as_str()) {
        diags.push(
            Diagnostic {
                severity: Severity::Warning,
                code: "empty-body",
                file: Some(file.clone()),
                line: None,
                entity: Some(eref.to_string()),
                path: None,
                message: owned("no description: the body is the entity's prose"),
                suggestion: None,
            },
        );
    }
    let ghost spec_r = parse_entity_spec(relv, raw@, fm@);
    assert(diags_view(diags@) =~= spec_r.1);
    (Some(Entity { eref, file, fm: parsed, body, raw }), diags)
}

// ───────────────────────────── discovery ─────────────────────────────

/// A path and each of its parents in turn, up to the first without a parent.
pub open spec fn ancestors(p: Seq<PathPartV>) -> Seq<Seq<PathPartV>>
    decreases p.len(),
{
    if can_pop(p) {
        seq![p] + ancestors(p.drop_last())
    } else {
        seq![p]
    }
}

/// The directories that may hold the vault, in the order they are tried:
/// the explicit one alone, else `laplace/` under `start` and each parent.
pub open spec fn candidate_dirs(start: Seq<PathPartV>, explicit: Option<Seq<PathPartV>>) -> Seq<
    Seq<PathPartV>,
> {
    match explicit {
        Some(d) => seq![d],
        None => ancestors(start).map_values(
            |a: Seq<PathPartV>| a.push(PathPartV::Normal("laplace"@)),
        ),
    }
}

pub open spec fn dirs_view(v: Seq<Vec<PathPart>>) -> Seq<Seq<PathPartV>> {
    v.map_values(|d: Vec<PathPart>| parts_view(d@))
}

pub fn duplicate_parts(v: &Vec<PathPart>) -> (r: Vec<PathPart>)
    ensures
        parts_view(r@) == parts_view(v@),
{
    let mut out: Vec<PathPart> = Vec::new();
    let mut i: usize = 0;
    while i < v.len()
        invariant
            i <= v.len(),
            out@.len() == i,
            forall|j: int| 0 <= j < i ==> (#[trigger] out@[j])@ == v@[j]@,
        decreases v.len() - i,
    {
        out.push(v[i].duplicate());
        i = i + 1;
    }
    assert(parts_view(out@) =~= parts_view(v@));
    out
}

/// Where to look for `schema.yaml`, in order.
pub fn discover_candidates(start: &Vec<PathPart>, explicit: Option<&Vec<PathPart>>) -> (r: Vec<
    Vec<PathPart>,
>)
    ensures
        dirs_view(r@) == candidate_dirs(
            parts_view(start@),
            match explicit {
                Some(d) => Some(parts_view(d@)),
                None => None,
            },
        ),
{
    let mut out: Vec<Vec<PathPart>> = Vec::new();
    match explicit {
        Some(d) => {
            out.push(duplicate_parts(d));
            assert(dirs_view(out@) =~= seq![parts_view(d@)]);
            return out;
        },
        None => {},
    }
    let ghost all = ancestors(parts_view(start@));
    let mut cur = duplicate_parts(start);
    let ghost mut done: nat = 0;
    loop
        invariant
            explicit is None,
            all == ancestors(parts_view(start@)),
            done == out@.len(),
            done < all.len(),
            all.skip(done as int) == ancestors(parts_view(cur@)),
            forall|j: int|
                0 <= j < done ==> dirs_view(out@)[j] == (#[trigger] all[j]).push(
                    PathPartV::Normal("laplace"@),
                ),
        decreases parts_view(cur@).len(),
    {
        let mut cand = duplicate_parts(&cur);
        cand.push(PathPart::Normal(owned("laplace")));
        let ghost pc = parts_view(cur@);
        proof {
            assert(ancestors(pc)[0] == pc);
            assert(all[done as int] == all.skip(done as int)[0]);
            assert(parts_view(cand@) =~= pc.push(PathPartV::Normal("laplace"@)));
        }
        out.push(cand);
        proof {
            assert(dirs_view(out@)[done as int] == parts_view(out@[done as int]@));
        }
        let poppable = !(cur.len() == 0 || (cur.len() == 1 && matches!(cur[0], PathPart::Root)));
        proof {
            if cur.len() == 1 {
                assert(pc[0] == cur@[0]@);
            }
        }
        if !poppable {
            proof {
                assert(all.skip(done as int).len() == 1);
                let t = all.map_values(|a: Seq<PathPartV>| a.push(PathPartV::Normal("laplace"@)));
                assert(dirs_view(out@) =~= t);
            }
            return out;
        }
        proof {
            assert(can_pop(pc));
            assert(ancestors(pc) == seq![pc] + ancestors(pc.drop_last()));
        }
        let ghost before = cur@;
        cur.pop();
        proof {
            assert(cur@ =~= before.drop_last());
            assert(parts_view(cur@) =~= pc.drop_last());
            assert(all.skip((done + 1) as int) =~= all.skip(done as int).drop_first());
            done = done + 1;
        }
    }
}

pub open spec fn no_vault_message(start: Seq<PathPartV>) -> Seq<char> {
    "no vault found: no `laplace/schema.yaml` from "@ + display_text(start)
        + " upward (create one with `laplace init`, or pass --vault)"@
}

pub open spec fn explicit_missing_message(d: Seq<PathPartV>) -> Seq<char> {
    "--vault "@ + display_text(d) + ": no schema.yaml there"@
}

/// The first candidate whose `schema.yaml` was found.
pub open spec fn first_found(found: Seq<bool>, n: int, from: int) -> Option<int>
    decreases n - from,
{
    if from < 0 || from >= n {
        None
    } else if from < found.len() && found[from] {
        Some(from)
    } else {
        first_found(found, n, from + 1)
    }
}

/// Which vault to use: the explicit directory if it holds a schema, else the
/// first `laplace/` upward from `start` that does; `found[i]` says whether
/// candidate `i` (as `discover_candidates` lists them) has a `schema.yaml`.
pub open spec fn discover_spec(
    start: Seq<PathPartV>,
    explicit: Option<Seq<PathPartV>>,
    found: Seq<bool>,
) -> Result<Seq<PathPartV>, Seq<char>> {
    let c = candidate_dirs(start, explicit);
    match explicit {
        Some(d) => if found.len() > 0 && found[0] {
            Ok(d)
        } else {
            Err(explicit_missing_message(d))
        },
        None => match first_found(found, c.len() as int, 0) {
            Some(i) => Ok(c[i]),
            None => Err(no_vault_message(start)),
        },
    }
}

/// Find the vault directory.
pub fn discover(start: &Vec<PathPart>, explicit: Option<&Vec<PathPart>>, found: &Vec<bool>) -> (r:
    Result<Vec<PathPart>, String>)
    ensures
        match r {
            Ok(d) => discover_spec(
                parts_view(start@),
                match explicit {
                    Some(e) => Some(parts_view(e@)),
                    None => None,
                },
                found@,
            ) == Ok::<Seq<PathPartV>, Seq<char>>(parts_view(d@)),
            Err(m) => discover_spec(
                parts_view(start@),
                match explicit {
                    Some(e) => Some(parts_view(e@)),
                    None => None,
                },
                found@,
            ) == Err::<Seq<PathPartV>, Seq<char>>(m@),
        },
{
    match explicit {
        Some(d) => {
            if found.len() > 0 && found[0] {
                return Ok(duplicate_parts(d));
            }
            let mut m = owned("--vault ");
            m.append(display_path(d).as_str());
            m.append(": no schema.yaml there");
            return Err(m);
        },
        None => {},
    }
    let cands = discover_candidates(start, None);
    let ghost c = dirs_view(cands@);
    let mut i: usize = 0;
    while i < cands.len()
        invariant
            i <= cands.len(),
            explicit is None,
            c == dirs_view(cands@),
            c == candidate_dirs(parts_view(start@), None),
            first_found(found@, c.len() as int, 0) == first_found(found@, c.len() as int, i as int),
        decreases cands.len() - i,
    {
        if i < found.len() && found[i] {
            assert(c[i as int] == parts_view(cands@[i as int]@));
            return Ok(duplicate_parts(&cands[i]));
        }
        i = i + 1;
    }
    let mut m = owned("no vault found: no `laplace/schema.yaml` from ");
    m.append(display_path(start).as_str());
    m.append(" upward (create one with `laplace init`, or pass --vault)");
    Err(m)
}

// ───────────────────────────── assembling a vault ─────────────────────────────

pub struct Vault {
    /// The directory containing schema.yaml, as it shows.
    pub dir: String,
    /// What source/ignore globs resolve against: `dir` joined with the
    /// schema's `root`, normalized, as it shows.
    pub project_root: String,
    pub schema: Schema,
    pub entities: Vec<Entity>,
    /// Structure-layer diagnostics collected during load.
    pub load_diags: Vec<Diagnostic>,
}

pub open spec fn entities_view(v: Seq<Entity>) -> Seq<EntityV> {
    v.map_values(|e: Entity| e@)
}

pub open spec fn api_version_message(path: Seq<char>, v: Seq<char>) -> Seq<char> {
    path + ": apiVersion `"@ + v + "` is not `"@ + API_VERSION@
        + "` — this reader refuses unknown majors"@
}

/// A reader of this version refuses a schema whose `apiVersion` does not
/// start with `laplace/v1`.
pub fn check_api_version(schema_path: &str, schema: &Schema) -> (r: Result<(), String>)
    ensures
        r is Ok <==> starts_with(schema.api_version@, "laplace/v1"@),
        r matches Err(m) ==> m@ == api_version_message(schema_path@, schema.api_version@),
{
    if starts_with_str(schema.api_version.as_str(), "laplace/v1") {
        Ok(())
    } else {
        let mut m = owned(schema_path);
        m.append(": apiVersion `");
        m.append(schema.api_version.as_str());
        m.append("` is not `");
        m.append(API_VERSION);
        m.append("` — this reader refuses unknown majors");
        Err(m)
    }
}

/// The project root: the vault directory joined with `root`, normalized.
pub fn project_root_of(dir: &Vec<PathPart>, root: &Vec<PathPart>) -> (r: String)
    ensures
        r@ == display_text(normalized(joined(parts_view(dir@), parts_view(root@)))),
{
    let j = join_parts(dir, root);
    let n = normalize(&j);
    display_path(&n)
}

/// One file found under the vault: its vault-relative path components, and
/// either its text with what the YAML reader made of its frontmatter, or why
/// it could not be read.
pub struct LoadedFile {
    pub rel: Vec<String>,
    pub content: Result<(String, FmParse), String>,
}

pub enum ContentV {
    Read { raw: Seq<char>, fm: FmParseV },
    Unreadable(Seq<char>),
}

pub open spec fn content_view(f: LoadedFile) -> ContentV {
    match f.content {
        Ok((raw, fm)) => ContentV::Read { raw: raw@, fm: fm@ },
        Err(e) => ContentV::Unreadable(e@),
    }
}

/// The sort key of a file: its path components, compared in turn.
pub open spec fn path_key(rel: Seq<Seq<char>>) -> Seq<KeyPartV> {
    rel.map_values(|c: Seq<char>| KeyPartV::Text(c))
}

pub open spec fn file_keys(files: Seq<LoadedFile>) -> Seq<Seq<KeyPartV>> {
    files.map_values(|f: LoadedFile| path_key(strings_view(f.rel@)))
}

/// The first accepted entity with the given identity.
pub open spec fn same_identity(es: Seq<EntityV>, r: (Seq<char>, Seq<char>, Seq<char>)) -> Option<int>
    decreases es.len(),
{
    if es.len() == 0 {
        None
    } else if es[0].eref == r {
        Some(0)
    } else {
        match same_identity(es.drop_first(), r) {
            Some(i) => Some(i + 1),
            None => None,
        }
    }
}

pub open spec fn duplicate_message(prev: Seq<char>) -> Seq<char> {
    "normalizes to the same identity as "@ + prev + " (Unicode NFC)"@
}

/// Loading state after the files `order[0..k]`: accepted entities, findings.
pub open spec fn load_fold(files: Seq<LoadedFile>, order: Seq<usize>, k: nat) -> (
    Seq<EntityV>,
    Seq<DiagnosticV>,
)
    decreases k,
{
    if k == 0 {
        (seq![], seq![])
    } else {
        let (es, ds) = load_fold(files, order, (k - 1) as nat);
        let f = files[order[k - 1] as int];
        let rel = strings_view(f.rel@);
        match content_view(f) {
            ContentV::Unreadable(e) => (
                es,
                ds.push(error_at("unreadable"@, slash_text(rel), "cannot read: "@ + e)),
            ),
            ContentV::Read { raw, fm } => {
                let (eo, fds) = parse_entity_spec(rel, raw, fm);
                match eo {
                    None => (es, ds + fds),
                    Some(e) => match same_identity(es, e.eref) {
                        Some(i) => (
                            es,
                            (ds + fds).push(
                                DiagnosticV {
                                    severity: Severity::Error,
                                    code: "duplicate-entity"@,
                                    file: Some(e.file),
                                    line: None,
                                    entity: Some(crate::model::canonical(e.eref)),
                                    path: None,
                                    message: duplicate_message(es[i].file),
                                    suggestion: None,
                                },
                            ),
                        ),
                        None => (es.push(e), ds + fds),
                    },
                }
            },
        }
    }
}

pub open spec fn empty_vault_warning() -> DiagnosticV {
    DiagnosticV {
        severity: Severity::Warning,
        code: "empty-vault"@,
        file: None,
        line: None,
        entity: None,
        path: None,
        message: "the vault has no entities"@,
        suggestion: None,
    }
}

pub fn duplicate_fm_parse(f: &FmParse) -> (r: FmParse)
    ensures
        r@ == f@,
{
    match f {
        FmParse::Parsed(x) => FmParse::Parsed(x.duplicate()),
        FmParse::Failed { message, line } => FmParse::Failed {
            message: message.clone(),
            line: *line,
        },
    }
}

fn find_same_identity(es: &Vec<Entity>, r: &EntityRef) -> (i: Option<usize>)
    ensures
        match i {
            Some(x) => same_identity(entities_view(es@), r@) == Some(x as int) && x < es@.len(),
            None => same_identity(entities_view(es@), r@) is None,
        },
{
    let ghost ev = entities_view(es@);
    let mut i: usize = 0;
    assert(ev.skip(0) =~= ev);
    while i < es.len()
        invariant
            i <= es.len(),
            ev == entities_view(es@),
            same_identity(ev, r@) == match same_identity(ev.skip(i as int), r@) {
                Some(x) => Some(x + i),
                None => None,
            },
        decreases es.len() - i,
    {
        proof {
            let t = ev.skip(i as int);
            assert(t[0] == es@[i as int]@);
            assert(t.drop_first() =~= ev.skip(i + 1));
        }
        if es[i].eref.same(r) {
            return Some(i);
        }
        i = i + 1;
    }
    None
}

proof fn lemma_same_identity_none(es: Seq<EntityV>, r: (Seq<char>, Seq<char>, Seq<char>))
    ensures
        same_identity(es, r) is None ==> forall|i: int| 0 <= i < es.len() ==> #[trigger] es[i].eref != r,
    decreases es.len(),
{
    if es.len() > 0 {
        lemma_same_identity_none(es.drop_first(), r);
        if same_identity(es, r) is None {
            assert forall|i: int| 0 <= i < es.len() implies #[trigger] es[i].eref != r by {
                if i > 0 {
                    assert(es[i] == es.drop_first()[i - 1]);
                }
            }
        }
    }
}

/// A loaded vault never holds two entities with one identity: a second file
/// with the identity of an accepted one is refused.
pub proof fn lemma_loaded_identities_distinct(files: Seq<LoadedFile>, order: Seq<usize>, k: nat)
    ensures
        forall|i: int, j: int|
            0 <= i < j < load_fold(files, order, k).0.len() ==> (#[trigger] load_fold(files, order, k).0[i]).eref
                != (#[trigger] load_fold(files, order, k).0[j]).eref,
    decreases k,
{
    if k > 0 {
        lemma_loaded_identities_distinct(files, order, (k - 1) as nat);
        let es = load_fold(files, order, (k - 1) as nat).0;
        let f = files[order[k - 1] as int];
        let rel = strings_view(f.rel@);
        match content_view(f) {
            ContentV::Unreadable(_) => {},
            ContentV::Read { raw, fm } => {
                let (eo, fds) = parse_entity_spec(rel, raw, fm);
                match eo {
                    None => {},
                    Some(e) => {
                        lemma_same_identity_none(es, e.eref);
                        let out = load_fold(files, order, k).0;
                        assert forall|i: int, j: int| 0 <= i < j < out.len() implies (#[trigger] out[i]).eref
                            != (#[trigger] out[j]).eref by {
                            if same_identity(es, e.eref) is None {
                                assert(out == es.push(e));
                                if j < es.len() {
                                    assert(out[i] == es[i] && out[j] == es[j]);
                                } else {
                                    assert(out[i] == es[i]);
                                }
                            }
                        }
                    },
                }
            },
        }
    }
}

/// The entities stand in the order of their files' paths: no file comes,
/// component by component, before an earlier entity's.
pub open spec fn in_path_order(es: Seq<EntityV>) -> bool {
    exists|rels: Seq<Seq<Seq<char>>>|
        #![trigger rels.len()]
        rels.len() == es.len() && (forall|i: int| 0 <= i < es.len() ==> (#[trigger] es[i]).file == slash_text(rels[i]))
            && forall|i: int, j: int|
            0 <= i < j < es.len() ==> !crate::sort::key_lt(path_key(#[trigger] rels[j]), path_key(#[trigger] rels[i]))
}

/// The accepted entities of the first `k` files, each with the position in
/// `order` of the file it came from: positions increase, and each entity's
/// file is that file's path.
proof fn lemma_fold_sources(files: Seq<LoadedFile>, order: Seq<usize>, k: nat) -> (src: Seq<int>)
    requires
        k <= order.len(),
        forall|i: int| 0 <= i < order.len() ==> #[trigger] order[i] < files.len(),
    ensures
        src.len() == load_fold(files, order, k).0.len(),
        forall|i: int| 0 <= i < src.len() ==> 0 <= #[trigger] src[i] < k,
        forall|i: int, j: int| 0 <= i < j < src.len() ==> #[trigger] src[i] < #[trigger] src[j],
        forall|i: int|
            0 <= i < src.len() ==> (#[trigger] load_fold(files, order, k).0[i]).file == slash_text(
                strings_view(files[order[src[i]] as int].rel@),
            ),
    decreases k,
{
    if k == 0 {
        seq![]
    } else {
        let prev = lemma_fold_sources(files, order, (k - 1) as nat);
        let es = load_fold(files, order, (k - 1) as nat).0;
        let f = files[order[k - 1] as int];
        let rel = strings_view(f.rel@);
        match content_view(f) {
            ContentV::Unreadable(_) => prev,
            ContentV::Read { raw, fm } => {
                let (eo, fds) = parse_entity_spec(rel, raw, fm);
                match eo {
                    None => prev,
                    Some(e) => {
                        if same_identity(es, e.eref) is Some {
                            prev
                        } else {
                            let src = prev.push(k - 1);
                            let out = load_fold(files, order, k).0;
                            assert(out == es.push(e));
                            assert(e.file == slash_text(rel));
                            assert forall|i: int| 0 <= i < src.len() implies (#[trigger] out[i]).file == slash_text(
                                strings_view(files[order[src[i]] as int].rel@),
                            ) by {
                                if i < prev.len() {
                                    assert(out[i] == es[i]);
                                    assert(src[i] == prev[i]);
                                }
                            }
                            assert forall|i: int, j: int| 0 <= i < j < src.len() implies #[trigger] src[i] < #[trigger] src[j] by {
                                if j < prev.len() {
                                    assert(src[i] == prev[i] && src[j] == prev[j]);
                                } else {
                                    assert(src[i] == prev[i]);
                                }
                            }
                            src
                        }
                    },
                }
            },
        }
    }
}

/// Files taken in a stable path order give entities in path order.
proof fn lemma_fold_in_path_order(files: Seq<LoadedFile>, order: Seq<usize>)
    requires
        crate::sort::is_permutation_of_range(order, files.len() as int),
        crate::sort::is_stably_sorted(file_keys(files), order),
    ensures
        in_path_order(load_fold(files, order, files.len() as nat).0),
{
    let n = files.len() as nat;
    let src = lemma_fold_sources(files, order, n);
    let es = load_fold(files, order, n).0;
    let rels = Seq::new(src.len(), |i: int| strings_view(files[order[src[i]] as int].rel@));
    assert forall|i: int, j: int| 0 <= i < j < es.len() implies !crate::sort::key_lt(
        path_key(#[trigger] rels[j]),
        path_key(#[trigger] rels[i]),
    ) by {
        let a = order[src[i]] as int;
        let b = order[src[j]] as int;
        assert(src[i] < src[j]);
        assert(crate::sort::entry_lt(file_keys(files), a, b));
        assert(file_keys(files)[a] == path_key(rels[i]));
        assert(file_keys(files)[b] == path_key(rels[j]));
        crate::sort::lemma_key_lt_total(path_key(rels[i]), path_key(rels[j]));
        crate::sort::lemma_key_lt_irrefl(path_key(rels[i]));
    }
    assert(rels.len() == es.len());
}

/// Assemble a vault from its schema and the files found under it: files are
/// taken in path order; each yields an entity or findings; a second file
/// with the identity of an earlier one is refused; an empty vault is flagged.
/// `listing` holds the findings of listing the directory.
pub fn assemble(
    dir: String,
    project_root: String,
    schema: Schema,
    listing: Vec<Diagnostic>,
    files: &Vec<LoadedFile>,
) -> (v: Vault)
    ensures
        v.dir@ == dir@,
        v.project_root@ == project_root@,
        v.schema@ == schema@,
        ({
            let order = sorted_positions(file_keys(files@), files@.len() as nat);
            let (es, ds) = load_fold(files@, order, files@.len() as nat);
            &&& entities_view(v.entities@) == es
            &&& diags_view(v.load_diags@) == diags_view(listing@) + ds + if es.len() == 0 {
                seq![empty_vault_warning()]
            } else {
                Seq::<DiagnosticV>::empty()
            }
        }),
        forall|i: int, j: int|
            0 <= i < j < v.entities@.len() ==> (#[trigger] v.entities@[i])@.eref != (#[trigger] v.entities@[j])@.eref,
        in_path_order(entities_view(v.entities@)),
{
    let mut keys: Vec<SortKey> = Vec::new();
    let mut i: usize = 0;
    while i < files.len()
        invariant
            i <= files.len(),
            keys@.len() == i,
            forall|j: int|
                0 <= j < i ==> crate::sort::key_view(#[trigger] keys@[j]) == path_key(
                    strings_view(files@[j].rel@),
                ),
        decreases files.len() - i,
    {
        let mut k = empty_key();
        let mut c: usize = 0;
        while c < files[i].rel.len()
            invariant
                i < files.len(),
                c <= files@[i as int].rel@.len(),
                crate::sort::key_view(k) == path_key(strings_view(files@[i as int].rel@.take(c as int))),
            decreases files@[i as int].rel@.len() - c,
        {
            push_text(&mut k, files[i].rel[c].as_str());
            proof {
                assert(path_key(strings_view(files@[i as int].rel@.take(c + 1))) =~= path_key(
                    strings_view(files@[i as int].rel@.take(c as int)),
                ).push(KeyPartV::Text(files@[i as int].rel@[c as int]@)));
            }
            c = c + 1;
        }
        assert(files@[i as int].rel@.take(c as int) =~= files@[i as int].rel@);
        keys.push(k);
        i = i + 1;
    }
    assert(keys_view(keys@) =~= file_keys(files@));
    let order = sort_indices(&keys);
    let ghost ord = order@;
    proof {
        lemma_fold_in_path_order(files@, ord);
        lemma_loaded_identities_distinct(files@, ord, files@.len() as nat);
    }
    let mut entities: Vec<Entity> = Vec::new();
    let mut diags: Vec<Diagnostic> = Vec::new();
    let mut k: usize = 0;
    while k < order.len()
        invariant
            k <= order.len(),
            ord == order@,
            ord == sorted_positions(file_keys(files@), files@.len() as nat),
            is_permutation_of_range(ord, files@.len() as int),
            entities_view(entities@) == load_fold(files@, ord, k as nat).0,
            diags_view(diags@) == load_fold(files@, ord, k as nat).1,
        decreases order.len() - k,
    {
        let f = &files[order[k]];
        let ghost before_d = diags_view(diags@);
        let ghost before_e = entities_view(entities@);
        match &f.content {
            Err(e) => {
                let file = slash_join(&f.rel);
                diags.push(Diagnostic::err("unreadable", Some(file), concat("cannot read: ", e.as_str())));
                assert(diags_view(diags@) =~= before_d.push(diags@.last()@));
            },
            Ok((raw, fm)) => {
                let (eo, fds) = parse_entity(&f.rel, raw.clone(), duplicate_fm_parse(fm));
                let mut fi: usize = 0;
                while fi < fds.len()
                    invariant
                        fi <= fds.len(),
                        diags_view(diags@) == before_d + diags_view(fds@.take(fi as int)),
                    decreases fds.len() - fi,
                {
                    let ghost od = diags@;
                    diags.push(fds[fi].duplicate());
                    proof {
                        assert(diags_view(diags@) =~= diags_view(od).push(fds@[fi as int]@));
                        assert(diags_view(fds@.take(fi + 1)) =~= diags_view(fds@.take(fi as int)).push(fds@[fi as int]@));
                        assert(diags_view(diags@) =~= before_d + diags_view(fds@.take(fi + 1)));
                    }
                    fi = fi + 1;
                }
                assert(fds@.take(fi as int) =~= fds@);
                match eo {
                    None => {},
                    Some(e) => {
                        match find_same_identity(&entities, &e.eref) {
                            Some(pi) => {
                                let mut m = owned("normalizes to the same identity as ");
                                m.append(entities[pi].file.as_str());
                                m.append(" (Unicode NFC)");
                                let dup = Diagnostic {
                                    severity: Severity::Error,
                                    code: "duplicate-entity",
                                    file: Some(e.file.clone()),
                                    line: None,
                                    entity: Some(e.eref.to_string()),
                                    path: None,
                                    message: m,
                                    suggestion: None,
                                };
                                let ghost mid = diags_view(diags@);
                                diags.push(dup);
                                assert(diags_view(diags@) =~= mid.push(diags@.last()@));
                            },
                            None => {
                                entities.push(e);
                                assert(entities_view(entities@) =~= before_e.push(entities@.last()@));
                            },
                        }
                    },
                }
            },
        }
        k = k + 1;
    }
    let empty = entities.len() == 0;
    let ghost before_d = diags_view(diags@);
    if empty {
        diags.push(
            Diagnostic {
                severity: Severity::Warning,
                code: "empty-vault",
                file: None,
                line: None,
                entity: None,
                path: None,
                message: owned("the vault has no entities"),
                suggestion: None,
            },
        );
        assert(diags_view(diags@) =~= before_d.push(empty_vault_warning()));
    } else {
        assert(before_d + Seq::<DiagnosticV>::empty() =~= before_d);
    }
    let mut load_diags: Vec<Diagnostic> = Vec::new();
    let mut i: usize = 0;
    while i < listing.len()
        invariant
            i <= listing.len(),
            diags_view(load_diags@) == diags_view(listing@.take(i as int)),
        decreases listing.len() - i,
    {
        let ghost od = load_diags@;
        load_diags.push(listing[i].duplicate());
        assert(diags_view(load_diags@) =~= diags_view(od).push(listing@[i as int]@));
        assert(diags_view(listing@.take(i + 1)) =~= diags_view(listing@.take(i as int)).push(listing@[i as int]@));
        assert(diags_view(load_diags@) =~= diags_view(listing@.take(i + 1)));
        i = i + 1;
    }
    let ghost lv = diags_view(load_diags@);
    let mut i: usize = 0;
    while i < diags.len()
        invariant
            i <= diags.len(),
            diags_view(load_diags@) == lv + diags_view(diags@.take(i as int)),
        decreases diags.len() - i,
    {
        let ghost od = load_diags@;
        load_diags.push(diags[i].duplicate());
        assert(diags_view(load_diags@) =~= diags_view(od).push(diags@[i as int]@));
        assert(diags_view(diags@.take(i + 1)) =~= diags_view(diags@.take(i as int)).push(diags@[i as int]@));
        assert(diags_view(load_diags@) =~= lv + diags_view(diags@.take(i + 1)));
        i = i + 1;
    }
    assert(listing@.take(listing@.len() as int) =~= listing@);
    assert(diags@.take(diags@.len() as int) =~= diags@);
    proof {
        let es = load_fold(files@, ord, files@.len() as nat).0;
        assert(entities_view(entities@) == es);
        assert forall|i: int, j: int| 0 <= i < j < entities@.len() implies (#[trigger] entities@[i])@.eref
            != (#[trigger] entities@[j])@.eref by {
            assert(entities@[i]@ == es[i] && entities@[j]@ == es[j]);
        }
    }
    Vault { dir, project_root, schema, entities, load_diags }
}

impl Vault {
    /// The entity with this identity.
    pub open spec fn entity_index(self, r: (Seq<char>, Seq<char>, Seq<char>)) -> Option<int> {
        same_identity(entities_view(self.entities@), r)
    }

    pub fn get(&self, eref: &EntityRef) -> (r: Option<&Entity>)
        ensures
            match r {
                Some(e) => self.entity_index(eref@) matches Some(i) && e@ == self.entities@[i]@,
                None => self.entity_index(eref@) is None,
            },
    {
        match find_same_identity(&self.entities, eref) {
            Some(i) => Some(&self.entities[i]),
            None => None,
        }
    }

    /// Resolve user input to an entity ref: the parsed ref must name an entity.
    pub fn resolve(&self, input: &str) -> (r: Result<EntityRef, String>)
        ensures
            match crate::model::parse_ref(input@) {
                Err(m) => r matches Err(x) && x@ == m,
                Ok(p) => match self.entity_index(p) {
                    Some(_) => r matches Ok(e) && e@ == p,
                    None => r matches Err(x) && x@ == no_entity_message(p),
                },
            },
    {
        let r = EntityRef::parse(input)?;
        if self.get(&r).is_some() {
            Ok(r)
        } else {
            let mut m = owned("no such entity: ");
            m.append(r.to_string().as_str());
            m.append(" (try `laplace query search ");
            m.append(r.name.as_str());
            m.append("`)");
            Err(m)
        }
    }
}

pub open spec fn no_entity_message(p: (Seq<char>, Seq<char>, Seq<char>)) -> Seq<char> {
    "no such entity: "@ + crate::model::canonical(p) + " (try `laplace query search "@ + p.2 + "`)"@
}

} // verus!
