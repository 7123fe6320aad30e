//! Core types: refs, the schema (the vault's constitution), entities, and the
//! text measures the projections use.

use vstd::prelude::*;
use unicode_normalization::UnicodeNormalization;
use crate::text::{
    char_is_whitespace, chars_of, concat3, contains_text, find_char, find_text, first_index,
    is_white_space, lemma_first_index, owned, string_of, string_of_range, trim_end, trim_start,
    trim_start_index, trimmed_end,
};

verus! {

pub const API_VERSION: &'static str = "laplace/v1";

pub const DEFAULT_NS: &'static str = "default";

// ───────────────────────────── Unicode normalization ─────────────────────────────

/// What Unicode NFC normalization makes of a char sequence.
pub uninterp spec fn nfc_of(s: Seq<char>) -> Seq<char>;

/// NFC-normalize a string (`UnicodeNormalization::nfc` collected). Its result
/// depends on the text alone; the normalization tables are not restated.
#[verifier::external_body]
pub fn nfc(s: &str) -> (r: String)
    ensures
        r@ == nfc_of(s@),
{
    s.nfc().collect()
}

// ───────────────────────────── refs ─────────────────────────────

/// Canonical entity reference `kind:namespace/name`; components are NFC-normalized.
#[derive(PartialEq, Eq, Debug)]
pub struct EntityRef {
    pub kind: String,
    pub ns: String,
    pub name: String,
}

impl View for EntityRef {
    type V = (Seq<char>, Seq<char>, Seq<char>);

    open spec fn view(&self) -> (Seq<char>, Seq<char>, Seq<char>) {
        (self.kind@, self.ns@, self.name@)
    }
}

impl Clone for EntityRef {
    fn clone(&self) -> (r: Self)
        ensures
            r == *self,
    {
        EntityRef { kind: self.kind.clone(), ns: self.ns.clone(), name: self.name.clone() }
    }
}

/// `kind:ns/name`.
pub open spec fn canonical(r: (Seq<char>, Seq<char>, Seq<char>)) -> Seq<char> {
    r.0 + seq![':'] + r.1 + seq!['/'] + r.2
}

/// A char allowed inside a ref word: no whitespace, `:` `/` `,` `[` `]` or quotes.
pub open spec fn is_word_char(c: char) -> bool {
    &&& !is_white_space(c)
    &&& c != ':'
    &&& c != '/'
    &&& c != ','
    &&& c != '['
    &&& c != ']'
    &&& c != '"'
    &&& c != '\''
}

/// A non-empty run of word chars.
pub open spec fn is_valid_word(w: Seq<char>) -> bool {
    w.len() > 0 && forall|i: int| 0 <= i < w.len() ==> is_word_char(#[trigger] w[i])
}

/// Split `kind:rest`, then `rest` into `ns/name` (no `/`: the default namespace).
pub open spec fn ref_words(s: Seq<char>) -> Option<(Seq<char>, Seq<char>, Seq<char>)> {
    match first_index(s, ':') {
        None => None,
        Some(i) => {
            let rest = s.skip(i + 1);
            match first_index(rest, '/') {
                Some(j) => Some((s.take(i), rest.take(j), rest.skip(j + 1))),
                None => Some((s.take(i), DEFAULT_NS@, rest)),
            }
        },
    }
}

pub open spec fn no_colon_message(s: Seq<char>) -> Seq<char> {
    "`"@ + s + "`: a ref is `kind:name` or `kind:namespace/name`"@
}

pub open spec fn bad_word_message(s: Seq<char>, w: Seq<char>) -> Seq<char> {
    "`"@ + s + "`: `"@ + w
        + "` is not a valid word (no whitespace, `:` `/` `,` `[` `]` or quotes; non-empty)"@
}

/// What `EntityRef::parse` makes of a text: the NFC-normalized words, or the
/// message naming the first offending part.
pub open spec fn parse_ref(s: Seq<char>) -> Result<(Seq<char>, Seq<char>, Seq<char>), Seq<char>> {
    match ref_words(s) {
        None => Err(no_colon_message(s)),
        Some(w) => if !is_valid_word(w.0) {
            Err(bad_word_message(s, w.0))
        } else if !is_valid_word(w.1) {
            Err(bad_word_message(s, w.1))
        } else if !is_valid_word(w.2) {
            Err(bad_word_message(s, w.2))
        } else {
            Ok((nfc_of(w.0), nfc_of(w.1), nfc_of(w.2)))
        },
    }
}

impl EntityRef {
    pub fn new(kind: &str, ns: &str, name: &str) -> (r: Self)
        ensures
            r@ == (nfc_of(kind@), nfc_of(ns@), nfc_of(name@)),
    {
        EntityRef { kind: nfc(kind), ns: nfc(ns), name: nfc(name) }
    }

    /// Parse `kind:name` or `kind:namespace/name`.
    pub fn parse(s: &str) -> (r: Result<Self, String>)
        ensures
            match r {
                Ok(e) => parse_ref(s@) == Ok::<_, Seq<char>>(e@),
                Err(m) => parse_ref(s@) == Err::<(Seq<char>, Seq<char>, Seq<char>), _>(m@),
            },
    {
        let v = chars_of(s);
        let i = match find_char(&v, ':') {
            None => {
                return Err(concat3("`", s, "`: a ref is `kind:name` or `kind:namespace/name`"));
            },
            Some(i) => i,
        };
        let kind = string_of_range(&v, 0, i);
        let rest = string_of_range(&v, i + 1, v.len());
        let rv = chars_of(rest.as_str());
        assert(v@.subrange(0, i as int) =~= v@.take(i as int));
        assert(v@.subrange(i + 1, v.len() as int) =~= v@.skip(i + 1));
        let (ns, name) = match find_char(&rv, '/') {
            Some(j) => {
                assert(rv@.subrange(0, j as int) =~= rv@.take(j as int));
                assert(rv@.subrange(j + 1, rv.len() as int) =~= rv@.skip(j + 1));
                (string_of_range(&rv, 0, j), string_of_range(&rv, j + 1, rv.len()))
            },
            None => (owned(DEFAULT_NS), rest),
        };
        if !valid_word(kind.as_str()) {
            return Err(bad_word(s, kind.as_str()));
        }
        if !valid_word(ns.as_str()) {
            return Err(bad_word(s, ns.as_str()));
        }
        if !valid_word(name.as_str()) {
            return Err(bad_word(s, name.as_str()));
        }
        Ok(EntityRef::new(kind.as_str(), ns.as_str(), name.as_str()))
    }

    /// The canonical display form `kind:ns/name`.
    pub fn to_string(&self) -> (r: String)
        ensures
            r@ == canonical(self@),
    {
        let mut s = self.kind.clone();
        s.push(':');
        s.append(self.ns.as_str());
        s.push('/');
        s.append(self.name.as_str());
        s
    }

    /// Same identity: all three components equal.
    pub fn same(&self, other: &EntityRef) -> (r: bool)
        ensures
            r == (self@ == other@),
    {
        self.kind == other.kind && self.ns == other.ns && self.name == other.name
    }
}

fn bad_word(s: &str, w: &str) -> (r: String)
    ensures
        r@ == bad_word_message(s@, w@),
{
    let mut m = concat3("`", s, "`: `");
    m.append(w);
    m.append("` is not a valid word (no whitespace, `:` `/` `,` `[` `]` or quotes; non-empty)");
    m
}

pub fn nfc_word(w: &str) -> (r: String)
    ensures
        r@ == nfc_of(w@),
{
    nfc(w)
}

/// A ref word: non-empty, no whitespace, no `:` `/` `,` `[` `]` or quotes.
pub fn valid_word(w: &str) -> (r: bool)
    ensures
        r == is_valid_word(w@),
{
    let v = chars_of(w);
    if v.len() == 0 {
        return false;
    }
    let mut i: usize = 0;
    while i < v.len()
        invariant
            i <= v.len(),
            v@ == w@,
            forall|k: int| 0 <= k < i ==> is_word_char(#[trigger] v@[k]),
        decreases v.len() - i,
    {
        let c = v[i];
        if char_is_whitespace(c) || c == ':' || c == '/' || c == ',' || c == '[' || c == ']' || c
            == '"' || c == '\'' {
            assert(!is_word_char(v@[i as int]));
            return false;
        }
        i = i + 1;
    }
    true
}

// ───────────────────────────── propagation ─────────────────────────────

/// Where a change propagates along an edge `A --rel--> B`.
#[derive(Clone, Copy, PartialEq, Eq, Structural, Debug)]
pub enum Propagation {
    /// A change to B affects A (dependency). The default.
    ToSource,
    /// A change to A affects B (containment/appearance).
    ToTarget,
    Both,
    /// Changes travel neither way (spelled `none` in the schema).
    Neither,
}

pub open spec fn propagation_name(p: Propagation) -> Seq<char> {
    match p {
        Propagation::ToSource => "to-source"@,
        Propagation::ToTarget => "to-target"@,
        Propagation::Both => "both"@,
        Propagation::Neither => "none"@,
    }
}

impl Default for Propagation {
    fn default() -> (r: Self)
        ensures
            r == Propagation::ToSource,
    {
        Propagation::ToSource
    }
}

impl Propagation {
    pub fn as_str(self) -> (r: &'static str)
        ensures
            r@ == propagation_name(self),
    {
        match self {
            Propagation::ToSource => "to-source",
            Propagation::ToTarget => "to-target",
            Propagation::Both => "both",
            Propagation::Neither => "none",
        }
    }

    /// The variant whose kebab-case name is `s`.
    pub fn from_name(s: &str) -> (r: Option<Propagation>)
        ensures
            match r {
                Some(p) => propagation_name(p) == s@,
                None => forall|p: Propagation| propagation_name(p) != s@,
            },
    {
        let t = owned(s);
        let a = owned("to-source");
        let b = owned("to-target");
        let c = owned("both");
        let d = owned("none");
        if t == a {
            Some(Propagation::ToSource)
        } else if t == b {
            Some(Propagation::ToTarget)
        } else if t == c {
            Some(Propagation::Both)
        } else if t == d {
            Some(Propagation::Neither)
        } else {
            assert forall|p: Propagation| propagation_name(p) != s@ by {
                match p {
                    Propagation::ToSource => {},
                    Propagation::ToTarget => {},
                    Propagation::Both => {},
                    Propagation::Neither => {},
                }
            }
            None
        }
    }
}

// ───────────────────────────── keyed lists ─────────────────────────────

/// The views of a list of strings.
pub open spec fn strs(v: Seq<String>) -> Seq<Seq<char>> {
    v.map_values(|s: String| s@)
}

/// Index of the first key equal to `k`.
pub open spec fn key_index(keys: Seq<Seq<char>>, k: Seq<char>) -> Option<int>
    decreases keys.len(),
{
    if keys.len() == 0 {
        None
    } else if keys[0] == k {
        Some(0)
    } else {
        match key_index(keys.drop_first(), k) {
            Some(i) => Some(i + 1),
            None => None,
        }
    }
}

pub proof fn lemma_key_index(keys: Seq<Seq<char>>, k: Seq<char>)
    ensures
        match key_index(keys, k) {
            Some(i) => 0 <= i < keys.len() && keys[i] == k && forall|j: int|
                0 <= j < i ==> keys[j] != k,
            None => forall|j: int| 0 <= j < keys.len() ==> keys[j] != k,
        },
    decreases keys.len(),
{
    if keys.len() > 0 {
        lemma_key_index(keys.drop_first(), k);
        if keys[0] != k {
            assert forall|j: int| 1 <= j < keys.len() implies keys[j] == keys.drop_first()[j
                - 1] by {}
        }
    }
}

/// The keys of a keyed list.
pub open spec fn keys_of<V>(m: Seq<(String, V)>) -> Seq<Seq<char>> {
    m.map_values(|p: (String, V)| p.0@)
}

/// Position of key `k` in a keyed list.
pub fn find_key<V>(m: &Vec<(String, V)>, k: &str) -> (r: Option<usize>)
    ensures
        match r {
            Some(i) => key_index(keys_of(m@), k@) == Some(i as int) && i < m@.len() && m@[i as int].0@
                == k@,
            None => key_index(keys_of(m@), k@) is None,
        },
{
    proof {
        lemma_key_index(keys_of(m@), k@);
    }
    let key = owned(k);
    let mut i: usize = 0;
    while i < m.len()
        invariant
            i <= m.len(),
            key@ == k@,
            forall|j: int| 0 <= j < i ==> keys_of(m@)[j] != k@,
            match key_index(keys_of(m@), k@) {
                Some(x) => 0 <= x < m@.len() && keys_of(m@)[x] == k@ && forall|j: int|
                    0 <= j < x ==> keys_of(m@)[j] != k@,
                None => forall|j: int| 0 <= j < m@.len() ==> keys_of(m@)[j] != k@,
            },
        decreases m.len() - i,
    {
        if m[i].0 == key {
            assert(keys_of(m@)[i as int] == k@);
            return Some(i);
        }
        i = i + 1;
    }
    None
}

/// `v.contains(s)` on a list of strings.
pub fn list_contains(v: &Vec<String>, s: &str) -> (r: bool)
    ensures
        r == strs(v@).contains(s@),
{
    let t = owned(s);
    let mut i: usize = 0;
    while i < v.len()
        invariant
            i <= v.len(),
            t@ == s@,
            forall|j: int| 0 <= j < i ==> strs(v@)[j] != s@,
        decreases v.len() - i,
    {
        if v[i] == t {
            assert(strs(v@)[i as int] == s@);
            return true;
        }
        i = i + 1;
    }
    false
}

pub fn clone_list(v: &Vec<String>) -> (r: Vec<String>)
    ensures
        strs(r@) == strs(v@),
        r@.len() == v@.len(),
{
    let r = v.clone();
    assert(strs(r@) =~= strs(v@));
    r
}

pub fn clone_opt_list(v: &Option<Vec<String>>) -> (r: Option<Vec<String>>)
    ensures
        opt_strs(r) == opt_strs(*v),
{
    match v {
        Some(l) => Some(clone_list(l)),
        None => None,
    }
}

pub open spec fn opt_strs(v: Option<Vec<String>>) -> Option<Seq<Seq<char>>> {
    match v {
        Some(l) => Some(strs(l@)),
        None => None,
    }
}

pub open spec fn opt_text(v: Option<String>) -> Option<Seq<char>> {
    match v {
        Some(s) => Some(s@),
        None => None,
    }
}

// ───────────────────────────── schema ─────────────────────────────

#[derive(Debug)]
pub struct KindDecl {
    pub description: Option<String>,
}

impl Clone for KindDecl {
    fn clone(&self) -> (r: Self)
        ensures
            r == *self,
    {
        KindDecl { description: self.description.clone() }
    }
}

impl KindDecl {
    /// First sentence of the description: the kind's display label.
    pub fn label(&self) -> (r: Option<String>)
        ensures
            match self.description {
                Some(d) => r is Some && r->0@ == first_sentence_of(d@),
                None => r is None,
            },
    {
        match &self.description {
            Some(d) => Some(first_sentence(d.as_str())),
            None => None,
        }
    }
}

#[derive(Debug)]
pub struct RelationDecl {
    pub description: Option<String>,
    pub propagation: Propagation,
    pub symmetric: bool,
    pub from: Option<Vec<String>>,
    pub to: Option<Vec<String>>,
    pub acyclic: bool,
}

pub struct RelationDeclV {
    pub description: Option<Seq<char>>,
    pub propagation: Propagation,
    pub symmetric: bool,
    pub from: Option<Seq<Seq<char>>>,
    pub to: Option<Seq<Seq<char>>>,
    pub acyclic: bool,
}

impl View for RelationDecl {
    type V = RelationDeclV;

    open spec fn view(&self) -> RelationDeclV {
        RelationDeclV {
            description: opt_text(self.description),
            propagation: self.propagation,
            symmetric: self.symmetric,
            from: opt_strs(self.from),
            to: opt_strs(self.to),
            acyclic: self.acyclic,
        }
    }
}

impl RelationDecl {
    pub fn duplicate(&self) -> (r: Self)
        ensures
            r@ == self@,
    {
        RelationDecl {
            description: self.description.clone(),
            propagation: self.propagation,
            symmetric: self.symmetric,
            from: clone_opt_list(&self.from),
            to: clone_opt_list(&self.to),
            acyclic: self.acyclic,
        }
    }
}

/// The default `root`: the directory containing the vault.
pub fn default_root() -> (r: String)
    ensures
        r@ == ".."@,
{
    owned("..")
}

/// `schema.yaml` — the constitution. `kinds` and `relations` are maps:
/// keyed by name, each name once, in name order (`schema_ops::schema_ordered`;
/// every schema operation keeps it, `schema_ops::lemma_schema_plans_stay_ordered`).
#[derive(Debug)]
pub struct Schema {
    pub api_version: String,
    pub name: String,
    pub title: Option<String>,
    pub root: String,
    pub charter: Vec<String>,
    pub ignore: Vec<String>,
    pub exclusions: Vec<String>,
    pub kinds: Vec<(String, KindDecl)>,
    pub relations: Vec<(String, RelationDecl)>,
}

pub struct SchemaV {
    pub api_version: Seq<char>,
    pub name: Seq<char>,
    pub title: Option<Seq<char>>,
    pub root: Seq<char>,
    pub charter: Seq<Seq<char>>,
    pub ignore: Seq<Seq<char>>,
    pub exclusions: Seq<Seq<char>>,
    pub kinds: Seq<(Seq<char>, Option<Seq<char>>)>,
    pub relations: Seq<(Seq<char>, RelationDeclV)>,
}

impl View for Schema {
    type V = SchemaV;

    open spec fn view(&self) -> SchemaV {
        SchemaV {
            api_version: self.api_version@,
            name: self.name@,
            title: opt_text(self.title),
            root: self.root@,
            charter: strs(self.charter@),
            ignore: strs(self.ignore@),
            exclusions: strs(self.exclusions@),
            kinds: self.kinds@.map_values(|p: (String, KindDecl)| (p.0@, opt_text(p.1.description))),
            relations: self.relations@.map_values(|p: (String, RelationDecl)| (p.0@, p.1@)),
        }
    }
}

impl Schema {
    pub fn duplicate(&self) -> (r: Self)
        ensures
            r@ == self@,
    {
        let mut kinds: Vec<(String, KindDecl)> = Vec::new();
        let mut i: usize = 0;
        while i < self.kinds.len()
            invariant
                i <= self.kinds.len(),
                kinds@.len() == i,
                forall|j: int|
                    0 <= j < i ==> (#[trigger] kinds@[j]).0@ == self.kinds@[j].0@ && kinds@[j].1
                        == self.kinds@[j].1,
            decreases self.kinds.len() - i,
        {
            kinds.push((self.kinds[i].0.clone(), self.kinds[i].1.clone()));
            i = i + 1;
        }
        let mut relations: Vec<(String, RelationDecl)> = Vec::new();
        let mut i: usize = 0;
        while i < self.relations.len()
            invariant
                i <= self.relations.len(),
                relations@.len() == i,
                forall|j: int|
                    0 <= j < i ==> (#[trigger] relations@[j]).0@ == self.relations@[j].0@
                        && relations@[j].1@ == self.relations@[j].1@,
            decreases self.relations.len() - i,
        {
            relations.push((self.relations[i].0.clone(), self.relations[i].1.duplicate()));
            i = i + 1;
        }
        let r = Schema {
            api_version: self.api_version.clone(),
            name: self.name.clone(),
            title: self.title.clone(),
            root: self.root.clone(),
            charter: clone_list(&self.charter),
            ignore: clone_list(&self.ignore),
            exclusions: clone_list(&self.exclusions),
            kinds,
            relations,
        };
        assert(r@.kinds =~= self@.kinds);
        assert(r@.relations =~= self@.relations);
        r
    }

    /// The declaration of relation type `rel`, if declared.
    pub open spec fn relation_decl(self, rel: Seq<char>) -> Option<RelationDeclV> {
        match key_index(keys_of(self.relations@), rel) {
            Some(i) => Some(self.relations@[i].1@),
            None => None,
        }
    }

    /// Is kind `k` declared?
    pub open spec fn declares_kind(self, k: Seq<char>) -> bool {
        key_index(keys_of(self.kinds@), k) is Some
    }
}

// ───────────────────────────── entities ─────────────────────────────

/// A frontmatter value beyond the fixed keys: a YAML string, or any other
/// YAML value kept as its serialized text.
#[derive(Debug)]
pub enum YamlValue {
    Str(String),
    Other(String),
}

pub enum YamlV {
    Str(Seq<char>),
    Other(Seq<char>),
}

impl View for YamlValue {
    type V = YamlV;

    open spec fn view(&self) -> YamlV {
        match self {
            YamlValue::Str(s) => YamlV::Str(s@),
            YamlValue::Other(s) => YamlV::Other(s@),
        }
    }
}

impl YamlValue {
    pub fn duplicate(&self) -> (r: Self)
        ensures
            r@ == self@,
    {
        match self {
            YamlValue::Str(s) => YamlValue::Str(s.clone()),
            YamlValue::Other(s) => YamlValue::Other(s.clone()),
        }
    }
}

pub open spec fn attrs_view(a: Seq<(String, YamlValue)>) -> Seq<(Seq<char>, YamlV)> {
    a.map_values(|p: (String, YamlValue)| (p.0@, p.1@))
}

pub fn duplicate_attrs(a: &Vec<(String, YamlValue)>) -> (r: Vec<(String, YamlValue)>)
    ensures
        attrs_view(r@) == attrs_view(a@),
{
    let mut out: Vec<(String, YamlValue)> = Vec::new();
    let mut i: usize = 0;
    while i < a.len()
        invariant
            i <= a.len(),
            out@.len() == i,
            forall|j: int|
                0 <= j < i ==> (#[trigger] out@[j]).0@ == a@[j].0@ && out@[j].1@ == a@[j].1@,
        decreases a.len() - i,
    {
        out.push((a[i].0.clone(), a[i].1.duplicate()));
        i = i + 1;
    }
    assert(attrs_view(out@) =~= attrs_view(a@));
    out
}

/// One relation entry: a bare ref, or an object with free edge attributes.
#[derive(Debug)]
pub enum RelEntry {
    Bare(String),
    Object { reference: String, attrs: Vec<(String, YamlValue)> },
}

pub enum RelEntryV {
    Bare(Seq<char>),
    Object { reference: Seq<char>, attrs: Seq<(Seq<char>, YamlV)> },
}

impl View for RelEntry {
    type V = RelEntryV;

    open spec fn view(&self) -> RelEntryV {
        match self {
            RelEntry::Bare(s) => RelEntryV::Bare(s@),
            RelEntry::Object { reference, attrs } => RelEntryV::Object {
                reference: reference@,
                attrs: attrs_view(attrs@),
            },
        }
    }
}

impl RelEntryV {
    pub open spec fn target_text(self) -> Seq<char> {
        match self {
            RelEntryV::Bare(s) => s,
            RelEntryV::Object { reference, .. } => reference,
        }
    }

    pub open spec fn note_text(self) -> Option<Seq<char>> {
        match self {
            RelEntryV::Bare(_) => None,
            RelEntryV::Object { attrs, .. } => match key_index(
                attrs.map_values(|p: (Seq<char>, YamlV)| p.0),
                "note"@,
            ) {
                Some(i) => match attrs[i].1 {
                    YamlV::Str(s) => Some(s),
                    YamlV::Other(_) => None,
                },
                None => None,
            },
        }
    }
}

impl RelEntry {
    pub fn duplicate(&self) -> (r: Self)
        ensures
            r@ == self@,
    {
        match self {
            RelEntry::Bare(s) => RelEntry::Bare(s.clone()),
            RelEntry::Object { reference, attrs } => RelEntry::Object {
                reference: reference.clone(),
                attrs: duplicate_attrs(attrs),
            },
        }
    }

    pub fn target(&self) -> (r: &str)
        ensures
            r@ == self@.target_text(),
    {
        match self {
            RelEntry::Bare(s) => s.as_str(),
            RelEntry::Object { reference, .. } => reference.as_str(),
        }
    }

    /// The `note` attribute, when it is a string.
    pub fn note(&self) -> (r: Option<&str>)
        ensures
            match r {
                Some(n) => self@.note_text() == Some(n@),
                None => self@.note_text() is None,
            },
    {
        match self {
            RelEntry::Bare(_) => None,
            RelEntry::Object { attrs, .. } => {
                let ghost a = attrs_view(attrs@);
                assert(a.map_values(|p: (Seq<char>, YamlV)| p.0) =~= keys_of(attrs@));
                match find_key(attrs, "note") {
                    Some(i) => match &attrs[i].1 {
                        YamlValue::Str(s) => Some(s.as_str()),
                        YamlValue::Other(_) => None,
                    },
                    None => None,
                }
            },
        }
    }
}

pub open spec fn entries_view(v: Seq<RelEntry>) -> Seq<RelEntryV> {
    v.map_values(|e: RelEntry| e@)
}

pub open spec fn relations_view(v: Seq<(String, Vec<RelEntry>)>) -> Seq<(Seq<char>, Seq<RelEntryV>)> {
    v.map_values(|p: (String, Vec<RelEntry>)| (p.0@, entries_view(p.1@)))
}

pub fn duplicate_entries(v: &Vec<RelEntry>) -> (r: Vec<RelEntry>)
    ensures
        entries_view(r@) == entries_view(v@),
{
    let mut out: Vec<RelEntry> = Vec::new();
    let mut i: usize = 0;
    while i < v.len()
        invariant
            i <= v.len(),
            out@.len() == i,
            forall|j: int| 0 <= j < i ==> (#[trigger] out@[j])@ == v@[j]@,
        decreases v.len() - i,
    {
        out.push(v[i].duplicate());
        i = i + 1;
    }
    assert(entries_view(out@) =~= entries_view(v@));
    out
}

pub fn duplicate_relations(v: &Vec<(String, Vec<RelEntry>)>) -> (r: Vec<(String, Vec<RelEntry>)>)
    ensures
        relations_view(r@) == relations_view(v@),
{
    let mut out: Vec<(String, Vec<RelEntry>)> = Vec::new();
    let mut i: usize = 0;
    while i < v.len()
        invariant
            i <= v.len(),
            out@.len() == i,
            forall|j: int|
                0 <= j < i ==> (#[trigger] out@[j]).0@ == v@[j].0@ && entries_view(out@[j].1@)
                    == entries_view(v@[j].1@),
        decreases v.len() - i,
    {
        out.push((v[i].0.clone(), duplicate_entries(&v[i].1)));
        i = i + 1;
    }
    assert(relations_view(out@) =~= relations_view(v@));
    out
}

/// Entity frontmatter. `kind`/`name` are captured only to reject them: the
/// path is the identity. `relations` is a map: each relation type once, in
/// name order (`ops::relations_ordered`; the writes keep it,
/// `ops::lemma_relation_writes_stay_ordered`).
#[derive(Debug)]
pub struct FrontMatter {
    pub title: Option<String>,
    pub tags: Vec<String>,
    pub lifecycle: Option<String>,
    pub relations: Vec<(String, Vec<RelEntry>)>,
    pub source: Vec<String>,
    pub kind: Option<YamlValue>,
    pub name: Option<YamlValue>,
    pub extra: Vec<(String, YamlValue)>,
}

pub struct FrontMatterV {
    pub title: Option<Seq<char>>,
    pub tags: Seq<Seq<char>>,
    pub lifecycle: Option<Seq<char>>,
    pub relations: Seq<(Seq<char>, Seq<RelEntryV>)>,
    pub source: Seq<Seq<char>>,
    pub kind: Option<YamlV>,
    pub name: Option<YamlV>,
    pub extra: Seq<(Seq<char>, YamlV)>,
}

pub open spec fn opt_yaml(v: Option<YamlValue>) -> Option<YamlV> {
    match v {
        Some(x) => Some(x@),
        None => None,
    }
}

impl View for FrontMatter {
    type V = FrontMatterV;

    open spec fn view(&self) -> FrontMatterV {
        FrontMatterV {
            title: opt_text(self.title),
            tags: strs(self.tags@),
            lifecycle: opt_text(self.lifecycle),
            relations: relations_view(self.relations@),
            source: strs(self.source@),
            kind: opt_yaml(self.kind),
            name: opt_yaml(self.name),
            extra: attrs_view(self.extra@),
        }
    }
}

fn duplicate_opt_yaml(v: &Option<YamlValue>) -> (r: Option<YamlValue>)
    ensures
        opt_yaml(r) == opt_yaml(*v),
{
    match v {
        Some(x) => Some(x.duplicate()),
        None => None,
    }
}

impl FrontMatter {
    pub fn duplicate(&self) -> (r: Self)
        ensures
            r@ == self@,
    {
        FrontMatter {
            title: self.title.clone(),
            tags: clone_list(&self.tags),
            lifecycle: self.lifecycle.clone(),
            relations: duplicate_relations(&self.relations),
            source: clone_list(&self.source),
            kind: duplicate_opt_yaml(&self.kind),
            name: duplicate_opt_yaml(&self.name),
            extra: duplicate_attrs(&self.extra),
        }
    }

    /// The entries stated under relation type `rel`.
    pub open spec fn entries_of(self, rel: Seq<char>) -> Option<Seq<RelEntryV>> {
        let m = relations_view(self.relations@);
        match key_index(m.map_values(|p: (Seq<char>, Seq<RelEntryV>)| p.0), rel) {
            Some(i) => Some(m[i].1),
            None => None,
        }
    }
}

impl Default for FrontMatter {
    fn default() -> (r: Self)
        ensures
            r@ == (FrontMatterV {
                title: None,
                tags: seq![],
                lifecycle: None,
                relations: seq![],
                source: seq![],
                kind: None,
                name: None,
                extra: seq![],
            }),
    {
        let r = FrontMatter {
            title: None,
            tags: Vec::new(),
            lifecycle: None,
            relations: Vec::new(),
            source: Vec::new(),
            kind: None,
            name: None,
            extra: Vec::new(),
        };
        assert(r@.tags =~= seq![]);
        assert(r@.relations =~= seq![]);
        assert(r@.source =~= seq![]);
        assert(r@.extra =~= seq![]);
        r
    }
}

#[derive(Debug)]
pub struct Entity {
    pub eref: EntityRef,
    /// Vault-relative path, `/`-separated.
    pub file: String,
    pub fm: FrontMatter,
    pub body: String,
    /// Raw file text, for line-number lookup in diagnostics.
    pub raw: String,
}

pub struct EntityV {
    pub eref: (Seq<char>, Seq<char>, Seq<char>),
    pub file: Seq<char>,
    pub fm: FrontMatterV,
    pub body: Seq<char>,
    pub raw: Seq<char>,
}

impl View for Entity {
    type V = EntityV;

    open spec fn view(&self) -> EntityV {
        EntityV {
            eref: self.eref@,
            file: self.file@,
            fm: self.fm@,
            body: self.body@,
            raw: self.raw@,
        }
    }
}

/// The lines of a text as `str::lines` yields them: split at `\n`, a `\r`
/// before the `\n` dropped, no empty line after a final `\n`.
pub open spec fn lines_of(s: Seq<char>) -> Seq<Seq<char>>
    decreases s.len(),
{
    if s.len() == 0 {
        seq![]
    } else {
        match first_index(s, '\n') {
            None => seq![s],
            Some(i) => {
                proof {
                    lemma_first_index(s, '\n');
                }
                seq![strip_cr(s.take(i))] + lines_of(s.skip(i + 1))
            },
        }
    }
}

pub open spec fn strip_cr(l: Seq<char>) -> Seq<char> {
    if l.len() > 0 && l.last() == '\r' {
        l.drop_last()
    } else {
        l
    }
}

/// 1-based number of the first line that contains `needle`.
pub open spec fn line_of_text(s: Seq<char>, needle: Seq<char>) -> Option<int>
    decreases s.len(),
{
    if s.len() == 0 {
        None
    } else {
        match first_index(s, '\n') {
            None => if contains_text(s, needle) {
                Some(1)
            } else {
                None
            },
            Some(i) => {
                proof {
                    lemma_first_index(s, '\n');
                }
                if contains_text(strip_cr(s.take(i)), needle) {
                    Some(1)
                } else {
                    match line_of_text(s.skip(i + 1), needle) {
                        Some(k) => Some(k + 1),
                        None => None,
                    }
                }
            },
        }
    }
}

pub proof fn lemma_line_of_text(s: Seq<char>, needle: Seq<char>)
    ensures
        match line_of_text(s, needle) {
            Some(k) => 1 <= k <= lines_of(s).len() && contains_text(lines_of(s)[k - 1], needle)
                && forall|j: int| 0 <= j < k - 1 ==> !contains_text(#[trigger] lines_of(s)[j], needle),
            None => forall|j: int|
                0 <= j < lines_of(s).len() ==> !contains_text(#[trigger] lines_of(s)[j], needle),
        },
    decreases s.len(),
{
    if s.len() > 0 {
        lemma_first_index(s, '\n');
        match first_index(s, '\n') {
            None => {},
            Some(i) => {
                lemma_line_of_text(s.skip(i + 1), needle);
                let rest = lines_of(s.skip(i + 1));
                assert(lines_of(s) == seq![strip_cr(s.take(i))] + rest);
                assert forall|j: int| 1 <= j < lines_of(s).len() implies #[trigger] lines_of(s)[j]
                    == rest[j - 1] by {}
            },
        }
    }
}

impl Entity {
    pub fn duplicate(&self) -> (r: Self)
        ensures
            r@ == self@,
    {
        Entity {
            eref: self.eref.clone(),
            file: self.file.clone(),
            fm: self.fm.duplicate(),
            body: self.body.clone(),
            raw: self.raw.clone(),
        }
    }

    pub open spec fn title_text(&self) -> Seq<char> {
        match self.fm.title {
            Some(t) => t@,
            None => self.eref.name@,
        }
    }

    /// The display title: `title`, else the name.
    pub fn title(&self) -> (r: &str)
        ensures
            r@ == self.title_text(),
    {
        match &self.fm.title {
            Some(t) => t.as_str(),
            None => self.eref.name.as_str(),
        }
    }

    pub fn first_sentence(&self) -> (r: String)
        ensures
            r@ == first_sentence_of(self.body@),
    {
        first_sentence(self.body.as_str())
    }

    /// Best-effort line number of the first line containing `needle`.
    pub fn line_of(&self, needle: &str) -> (r: Option<usize>)
        ensures
            match r {
                Some(k) => line_of_text(self.raw@, needle@) == Some(k as int),
                None => line_of_text(self.raw@, needle@) is None,
            },
    {
        let v = chars_of(self.raw.as_str());
        let n = chars_of(needle);
        let mut start: usize = 0;
        let mut count: usize = 0;
        assert(v@.skip(0) =~= v@);
        while start < v.len()
            invariant
                start <= v.len() <= isize::MAX,
                v@ == self.raw@,
                n@ == needle@,
                count <= start,
                line_of_text(self.raw@, needle@) == match line_of_text(
                    v@.skip(start as int),
                    needle@,
                ) {
                    Some(k) => Some(k + count),
                    None => None,
                },
            decreases v.len() - start,
        {
            let ghost s = v@.skip(start as int);
            let mut end: usize = start;
            while end < v.len() && v[end] != '\n'
                invariant
                    start <= end <= v.len(),
                    forall|j: int| start <= j < end ==> v@[j] != '\n',
                decreases v.len() - end,
            {
                end = end + 1;
            }
            proof {
                lemma_first_index(s, '\n');
                assert forall|j: int| 0 <= j < end - start implies s[j] != '\n' by {
                    assert(s[j] == v@[start + j]);
                }
                if end < v.len() {
                    assert(s[end - start] == '\n');
                    lemma_first_index_is(s, '\n', end - start);
                } else {
                    lemma_first_index_none(s, '\n');
                }
            }
            // the line without its `\n`, and without a `\r` before it
            let mut line_end = end;
            if end < v.len() && line_end > start && v[line_end - 1] == '\r' {
                line_end = line_end - 1;
            }
            let mut line: Vec<char> = Vec::new();
            let mut k: usize = start;
            while k < line_end
                invariant
                    start <= k <= line_end <= v.len(),
                    line@ == v@.subrange(start as int, k as int),
                decreases line_end - k,
            {
                line.push(v[k]);
                k = k + 1;
                assert(line@ =~= v@.subrange(start as int, k as int));
            }
            proof {
                if end < v.len() {
                    let t = s.take(end - start);
                    assert(t =~= v@.subrange(start as int, end as int));
                    if t.len() > 0 && t.last() == '\r' {
                        assert(strip_cr(t) =~= line@);
                    } else {
                        assert(strip_cr(t) =~= line@);
                    }
                } else {
                    assert(s =~= line@);
                }
            }
            if find_text(&line, &n).is_some() {
                return Some(count + 1);
            }
            proof {
                if end < v.len() {
                    assert(s.skip(end - start + 1) =~= v@.skip(end + 1));
                }
            }
            if end == v.len() {
                return None;
            }
            count = count + 1;
            start = end + 1;
        }
        proof {
            assert(v@.skip(start as int).len() == 0);
        }
        None
    }
}

proof fn lemma_first_index_is(s: Seq<char>, c: char, k: int)
    requires
        0 <= k < s.len(),
        s[k] == c,
        forall|j: int| 0 <= j < k ==> s[j] != c,
    ensures
        first_index(s, c) == Some(k),
    decreases k,
{
    if k > 0 {
        assert forall|j: int| 0 <= j < k - 1 implies s.drop_first()[j] != c by {
            assert(s.drop_first()[j] == s[j + 1]);
        }
        lemma_first_index_is(s.drop_first(), c, k - 1);
    }
}

proof fn lemma_first_index_none(s: Seq<char>, c: char)
    requires
        forall|j: int| 0 <= j < s.len() ==> s[j] != c,
    ensures
        first_index(s, c) is None,
    decreases s.len(),
{
    if s.len() > 0 {
        assert forall|j: int| 0 <= j < s.len() - 1 implies s.drop_first()[j] != c by {
            assert(s.drop_first()[j] == s[j + 1]);
        }
        lemma_first_index_none(s.drop_first(), c);
    }
}

// ───────────────────────────── display measures ─────────────────────────────

/// East-Asian wide ranges: CJK, Hangul, fullwidth forms.
pub open spec fn is_wide_char(c: char) -> bool {
    let u = c as u32;
    ||| (0x1100 <= u && u <= 0x115F)
    ||| (0x2E80 <= u && u <= 0x303E)
    ||| (0x3041 <= u && u <= 0x33FF)
    ||| (0x3400 <= u && u <= 0x4DBF)
    ||| (0x4E00 <= u && u <= 0x9FFF)
    ||| (0xA000 <= u && u <= 0xA4CF)
    ||| (0xAC00 <= u && u <= 0xD7A3)
    ||| (0xF900 <= u && u <= 0xFAFF)
    ||| (0xFE30 <= u && u <= 0xFE4F)
    ||| (0xFF00 <= u && u <= 0xFF60)
    ||| (0xFFE0 <= u && u <= 0xFFE6)
    ||| (0x20000 <= u && u <= 0x2FA1F)
}

/// Does `c` take two display cells?
pub fn is_wide(c: char) -> (r: bool)
    ensures
        r == is_wide_char(c),
{
    let u = c as u32;
    (0x1100 <= u && u <= 0x115F) || (0x2E80 <= u && u <= 0x303E) || (0x3041 <= u && u <= 0x33FF)
        || (0x3400 <= u && u <= 0x4DBF) || (0x4E00 <= u && u <= 0x9FFF) || (0xA000 <= u && u
        <= 0xA4CF) || (0xAC00 <= u && u <= 0xD7A3) || (0xF900 <= u && u <= 0xFAFF) || (0xFE30
        <= u && u <= 0xFE4F) || (0xFF00 <= u && u <= 0xFF60) || (0xFFE0 <= u && u <= 0xFFE6)
        || (0x20000 <= u && u <= 0x2FA1F)
}

/// Display cells of a char: 2 when wide, else 1.
pub open spec fn cells_of(c: char) -> nat {
    if is_wide_char(c) {
        2
    } else {
        1
    }
}

/// CJK sentence terminators end a sentence wherever they stand.
pub open spec fn is_cjk_terminator(c: char) -> bool {
    c == '。' || c == '！' || c == '？'
}

/// ASCII `.` `!` `?` end a sentence only before whitespace or the end.
pub open spec fn is_ascii_terminator(c: char) -> bool {
    c == '.' || c == '!' || c == '?'
}

/// The sentence scan from `s`, having used `cells` display cells so far.
pub open spec fn sentence_scan(s: Seq<char>, cells: nat) -> Seq<char>
    decreases s.len(),
{
    if s.len() == 0 {
        seq![]
    } else if s[0] == '\n' {
        seq![]
    } else {
        let c = s[0];
        let used = cells + cells_of(c);
        let terminal = is_cjk_terminator(c) || (is_ascii_terminator(c) && (s.len() == 1
            || is_white_space(s[1])));
        if used > 120 {
            seq![]
        } else if terminal || used == 120 {
            seq![c]
        } else {
            seq![c] + sentence_scan(s.drop_first(), used)
        }
    }
}

/// First sentence of a text, capped at 120 display cells (it ends before
/// a char that would pass them): CJK terminators always end a sentence;
/// ASCII `.` `!` `?` only before whitespace or the end, so `v1.2` survives;
/// a newline ends it too.
pub open spec fn first_sentence_of(text: Seq<char>) -> Seq<char> {
    trim_end(sentence_scan(trim_start(text), 0))
}

/// Display width in cells.
pub open spec fn width_of(s: Seq<char>) -> nat
    decreases s.len(),
{
    if s.len() == 0 {
        0
    } else {
        cells_of(s[0]) + width_of(s.drop_first())
    }
}

proof fn lemma_width_last(x: Seq<char>)
    requires
        x.len() > 0,
    ensures
        width_of(x) == width_of(x.drop_last()) + cells_of(x.last()),
    decreases x.len(),
{
    if x.len() > 1 {
        lemma_width_last(x.drop_first());
        assert(x.drop_first().drop_last() =~= x.drop_last().drop_first());
        assert(x.drop_first().last() == x.last());
        assert(x.drop_last()[0] == x[0]);
        assert(width_of(x.drop_last()) == cells_of(x[0]) + width_of(x.drop_last().drop_first()));
    } else {
        assert(x.drop_last().len() == 0);
        assert(x.drop_first().len() == 0);
        assert(width_of(x.drop_first()) == 0);
        assert(width_of(x.drop_last()) == 0);
        assert(x.last() == x[0]);
    }
}

proof fn lemma_width_trim_end(x: Seq<char>)
    ensures
        width_of(trim_end(x)) <= width_of(x),
    decreases x.len(),
{
    if x.len() > 0 && is_white_space(x.last()) {
        lemma_width_trim_end(x.drop_last());
        lemma_width_last(x);
    }
}

proof fn lemma_scan_width(s: Seq<char>, cells: nat)
    requires
        cells <= 120,
    ensures
        cells + width_of(sentence_scan(s, cells)) <= 120,
    decreases s.len(),
{
    if s.len() > 0 && s[0] != '\n' {
        let c = s[0];
        let used = cells + cells_of(c);
        if used <= 120 {
            lemma_scan_width(s.drop_first(), used);
            let r = sentence_scan(s, cells);
            let terminal = is_cjk_terminator(c) || (is_ascii_terminator(c) && (s.len() == 1
                || is_white_space(s[1])));
            if terminal || used == 120 {
                assert(r == seq![c]);
                assert(r.drop_first().len() == 0);
                assert(width_of(r.drop_first()) == 0);
                assert(width_of(r) == cells_of(c));
            } else {
                let rest = sentence_scan(s.drop_first(), used);
                assert(r == seq![c] + rest);
                assert(r.drop_first() =~= rest);
                assert(width_of(r) == cells_of(c) + width_of(rest));
            }
        }
    }
}

/// The first sentence never takes more than 120 display cells.
pub proof fn lemma_first_sentence_fits(text: Seq<char>)
    ensures
        width_of(first_sentence_of(text)) <= 120,
{
    lemma_scan_width(trim_start(text), 0);
    lemma_width_trim_end(sentence_scan(trim_start(text), 0));
}

proof fn lemma_trim_start_head(x: Seq<char>)
    ensures
        trim_start(x).len() > 0 ==> !is_white_space(trim_start(x)[0]),
    decreases x.len(),
{
    if x.len() > 0 && is_white_space(x[0]) {
        lemma_trim_start_head(x.drop_first());
    }
}

/// `trim_end(y)` is the prefix of `y` up to its last non-white char.
proof fn lemma_trim_end_prefix(y: Seq<char>)
    ensures
        trim_end(y).len() <= y.len(),
        trim_end(y) == y.take(trim_end(y).len() as int),
        forall|j: int| trim_end(y).len() <= j < y.len() ==> is_white_space(#[trigger] y[j]),
        trim_end(y).len() > 0 ==> !is_white_space(trim_end(y).last()),
    decreases y.len(),
{
    if y.len() > 0 && is_white_space(y.last()) {
        lemma_trim_end_prefix(y.drop_last());
        let l = trim_end(y).len() as int;
        assert(y.drop_last().take(l) =~= y.take(l));
        assert forall|j: int| l <= j < y.len() implies is_white_space(#[trigger] y[j]) by {
            if j < y.len() - 1 {
                assert(y[j] == y.drop_last()[j]);
            }
        }
    } else {
        assert(y.take(y.len() as int) =~= y);
    }
}

proof fn lemma_scan_head(s: Seq<char>, cells: nat)
    ensures
        sentence_scan(s, cells).len() > 0 ==> s.len() > 0 && sentence_scan(s, cells)[0] == s[0],
{
}

/// Scanning a prefix of what a scan kept, cut where whitespace follows,
/// keeps all of it.
proof fn lemma_scan_prefix(s: Seq<char>, cells: nat, l: int)
    requires
        cells <= 120,
        0 <= l <= sentence_scan(s, cells).len(),
        l == sentence_scan(s, cells).len() || is_white_space(sentence_scan(s, cells)[l]),
    ensures
        sentence_scan(sentence_scan(s, cells).take(l), cells) == sentence_scan(s, cells).take(l),
    decreases s.len(),
{
    let q = sentence_scan(s, cells);
    let p = q.take(l);
    if l == 0 {
        assert(p.len() == 0);
    } else {
        let c = s[0];
        let used = cells + cells_of(c);
        let terminal = is_cjk_terminator(c) || (is_ascii_terminator(c) && (s.len() == 1
            || is_white_space(s[1])));
        assert(q[0] == c);
        assert(p[0] == c);
        assert(c != '\n');
        assert(used <= 120);
        if terminal || used == 120 {
            assert(q == seq![c]);
            assert(p =~= seq![c]);
            assert(p.drop_first().len() == 0);
            assert(sentence_scan(p, cells) == seq![c]);
        } else {
            let q2 = sentence_scan(s.drop_first(), used);
            assert(q == seq![c] + q2);
            assert(p.drop_first() =~= q2.take(l - 1));
            if l == 1 {
                assert(p =~= seq![c]);
                assert(p.drop_first().len() == 0);
                assert(sentence_scan(p.drop_first(), used).len() == 0);
                assert(sentence_scan(p, cells) =~= seq![c]);
            } else {
                lemma_scan_head(s.drop_first(), used);
                assert(q2[0] == s[1]);
                assert(p[1] == q2[0]);
                if l < q.len() {
                    assert(q[l] == q2[l - 1]);
                }
                lemma_scan_prefix(s.drop_first(), used, l - 1);
                assert(p == seq![c] + p.drop_first());
                assert(sentence_scan(p, cells) == seq![c] + sentence_scan(p.drop_first(), used));
            }
        }
    }
}

/// The first sentence of a first sentence is itself.
pub proof fn lemma_first_sentence_idempotent(text: Seq<char>)
    ensures
        first_sentence_of(first_sentence_of(text)) == first_sentence_of(text),
{
    let u = trim_start(text);
    let q = sentence_scan(u, 0);
    let r = trim_end(q);
    lemma_trim_end_prefix(q);
    lemma_trim_start_head(text);
    lemma_scan_head(u, 0);
    assert(trim_start(r) == r) by {
        if r.len() > 0 {
            assert(r[0] == q[0]);
        }
    }
    let l = r.len() as int;
    if l < q.len() {
        assert(is_white_space(q[l]));
    }
    lemma_scan_prefix(u, 0, l);
    assert(sentence_scan(r, 0) == r);
    lemma_trim_end_prefix(r);
    assert(trim_end(r) == r) by {
        if r.len() > 0 {
            assert(!is_white_space(r.last()));
        }
    }
}

pub fn first_sentence(text: &str) -> (r: String)
    ensures
        r@ == first_sentence_of(text@),
        width_of(r@) <= 120,
{
    proof {
        lemma_first_sentence_fits(text@);
    }
    let v = chars_of(text);
    let start = trim_start_index(&v);
    let mut out: Vec<char> = Vec::new();
    let mut cells: usize = 0;
    let mut i: usize = start;
    while i < v.len()
        invariant
            start <= i <= v.len() <= isize::MAX,
            v@ == text@,
            width_of(first_sentence_of(text@)) <= 120,
            trim_start(v@) == v@.skip(start as int),
            cells < 120,
            sentence_scan(v@.skip(start as int), 0) == out@ + sentence_scan(
                v@.skip(i as int),
                cells as nat,
            ),
        decreases v.len() - i,
    {
        let c = v[i];
        let ghost s = v@.skip(i as int);
        assert(s[0] == c);
        if c == '\n' {
            proof {
                assert(out@ + Seq::<char>::empty() =~= out@);
            }
            let r = string_of(&out);
            return trimmed_end(r.as_str());
        }
        let w: usize = if is_wide(c) {
            2
        } else {
            1
        };
        if cells + w > 120 {
            proof {
                assert(out@ + Seq::<char>::empty() =~= out@);
            }
            let r = string_of(&out);
            return trimmed_end(r.as_str());
        }
        out.push(c);
        cells = cells + w;
        let terminal = c == '。' || c == '！' || c == '？' || ((c == '.' || c == '!' || c == '?') && (
        i + 1 == v.len() || char_is_whitespace(v[i + 1])));
        proof {
            if i + 1 < v.len() {
                assert(s[1] == v@[i + 1]);
            }
            assert(s.drop_first() =~= v@.skip(i + 1));
        }
        if terminal || cells == 120 {
            assert(out@ =~= out@.drop_last() + seq![c]);
            i = i + 1;
            proof {
                assert(sentence_scan(v@.skip(start as int), 0) == out@);
            }
            let r = string_of(&out);
            let t = trimmed_end(r.as_str());
            return t;
        }
        i = i + 1;
        assert(out@.drop_last() + (seq![c] + sentence_scan(v@.skip(i as int), cells as nat))
            =~= out@ + sentence_scan(v@.skip(i as int), cells as nat));
    }
    proof {
        assert(v@.skip(i as int).len() == 0);
        assert(out@ + Seq::<char>::empty() =~= out@);
    }
    let r = string_of(&out);
    trimmed_end(r.as_str())
}

// ───────────────────────────── edit distance ─────────────────────────────

pub open spec fn min2(a: nat, b: nat) -> nat {
    if a <= b {
        a
    } else {
        b
    }
}

/// Levenshtein distance between the first `i` chars of `a` and the first `j` of `b`.
pub open spec fn lev(a: Seq<char>, b: Seq<char>, i: nat, j: nat) -> nat
    decreases i + j,
{
    if i == 0 {
        j
    } else if j == 0 {
        i
    } else {
        let cost: nat = if a[i - 1] != b[j - 1] {
            1
        } else {
            0
        };
        min2(
            min2(lev(a, b, (i - 1) as nat, j) + 1, lev(a, b, i, (j - 1) as nat) + 1),
            lev(a, b, (i - 1) as nat, (j - 1) as nat) + cost,
        )
    }
}

/// The edit distance between `a` and `b`.
pub open spec fn edit_distance(a: Seq<char>, b: Seq<char>) -> nat {
    lev(a, b, a.len(), b.len())
}

/// Smallest entry of row `i` among columns `0..=j`.
pub open spec fn row_min(a: Seq<char>, b: Seq<char>, i: nat, j: nat) -> nat
    decreases j,
{
    if j == 0 {
        lev(a, b, i, 0)
    } else {
        min2(row_min(a, b, i, (j - 1) as nat), lev(a, b, i, j))
    }
}

pub open spec fn abs_diff(x: nat, y: nat) -> nat {
    if x >= y {
        (x - y) as nat
    } else {
        (y - x) as nat
    }
}

/// What `levenshtein_capped` returns: `cap + 1` when the lengths differ by more
/// than `cap` or some row of the table exceeds `cap` throughout; else the
/// distance.
pub open spec fn capped_distance(a: Seq<char>, b: Seq<char>, cap: nat) -> nat {
    if abs_diff(a.len(), b.len()) > cap {
        cap + 1
    } else if exists|i: nat| 1 <= i <= a.len() && row_min(a, b, i, b.len()) > cap {
        cap + 1
    } else {
        edit_distance(a, b)
    }
}

proof fn lemma_lev_bound(a: Seq<char>, b: Seq<char>, i: nat, j: nat)
    ensures
        lev(a, b, i, j) <= if i >= j {
            i
        } else {
            j
        },
        lev(a, b, i, j) >= abs_diff(i, j),
    decreases i + j,
{
    if i > 0 && j > 0 {
        lemma_lev_bound(a, b, (i - 1) as nat, j);
        lemma_lev_bound(a, b, i, (j - 1) as nat);
        lemma_lev_bound(a, b, (i - 1) as nat, (j - 1) as nat);
    }
}

/// Row minima never decrease from one row to the next.
proof fn lemma_row_step(a: Seq<char>, b: Seq<char>, i: nat, j: nat)
    requires
        i >= 1,
        j <= b.len(),
        i <= a.len(),
    ensures
        lev(a, b, i, j) >= row_min(a, b, (i - 1) as nat, j),
    decreases j,
{
    lemma_row_min_le(a, b, (i - 1) as nat, j, j);
    if j > 0 {
        lemma_row_step(a, b, i, (j - 1) as nat);
        lemma_row_min_le(a, b, (i - 1) as nat, j, (j - 1) as nat);
        lemma_row_min_mono(a, b, (i - 1) as nat, (j - 1) as nat, j);
    }
}

proof fn lemma_row_min_le(a: Seq<char>, b: Seq<char>, i: nat, j: nat, k: nat)
    requires
        k <= j,
    ensures
        row_min(a, b, i, j) <= lev(a, b, i, k),
    decreases j,
{
    if j > 0 && k < j {
        lemma_row_min_le(a, b, i, (j - 1) as nat, k);
    }
}

proof fn lemma_row_min_mono(a: Seq<char>, b: Seq<char>, i: nat, j: nat, k: nat)
    requires
        j <= k,
    ensures
        row_min(a, b, i, k) <= row_min(a, b, i, j),
    decreases k,
{
    if k > j {
        lemma_row_min_mono(a, b, i, j, (k - 1) as nat);
    }
}

/// Every later row's minimum is at least an earlier row's minimum.
proof fn lemma_row_min_grows(a: Seq<char>, b: Seq<char>, i: nat, k: nat)
    requires
        i <= k <= a.len(),
    ensures
        row_min(a, b, k, b.len()) >= row_min(a, b, i, b.len()),
    decreases k,
{
    if k > i {
        lemma_row_min_grows(a, b, i, (k - 1) as nat);
        lemma_row_min_of_row(a, b, k, b.len());
    }
}

proof fn lemma_row_min_of_row(a: Seq<char>, b: Seq<char>, k: nat, j: nat)
    requires
        1 <= k <= a.len(),
        j <= b.len(),
    ensures
        row_min(a, b, k, j) >= row_min(a, b, (k - 1) as nat, b.len()),
    decreases j,
{
    lemma_row_step(a, b, k, j);
    lemma_row_min_mono(a, b, (k - 1) as nat, j, b.len());
    if j > 0 {
        lemma_row_min_of_row(a, b, k, (j - 1) as nat);
    }
}

/// The capped distance is within the cap exactly when the distance is, and
/// then the two agree.
pub proof fn lemma_capped_distance(a: Seq<char>, b: Seq<char>, cap: nat)
    ensures
        capped_distance(a, b, cap) <= cap <==> edit_distance(a, b) <= cap,
        capped_distance(a, b, cap) <= cap ==> capped_distance(a, b, cap) == edit_distance(a, b),
        capped_distance(a, b, cap) > cap ==> capped_distance(a, b, cap) == cap + 1
            || capped_distance(a, b, cap) == edit_distance(a, b),
{
    lemma_lev_bound(a, b, a.len(), b.len());
    if abs_diff(a.len(), b.len()) <= cap {
        if exists|i: nat| 1 <= i <= a.len() && row_min(a, b, i, b.len()) > cap {
            let i = choose|i: nat| 1 <= i <= a.len() && row_min(a, b, i, b.len()) > cap;
            lemma_row_min_grows(a, b, i, a.len());
            lemma_row_min_le(a, b, a.len(), b.len(), b.len());
        }
    }
}

/// Levenshtein distance with an early-exit cap, for did-you-mean suggestions.
pub fn levenshtein_capped(x: &str, y: &str, cap: usize) -> (r: usize)
    ensures
        r == capped_distance(x@, y@, cap as nat),
{
    let a = chars_of(x);
    let b = chars_of(y);
    let ghost sa = a@;
    let ghost sb = b@;
    let diff = if a.len() >= b.len() {
        a.len() - b.len()
    } else {
        b.len() - a.len()
    };
    if diff > cap {
        return cap + 1;
    }
    let m = b.len();
    let mut prev: Vec<usize> = Vec::new();
    let mut j: usize = 0;
    while j <= m
        invariant
            m == b.len() <= isize::MAX,
            j <= m + 1,
            prev@.len() == j,
            forall|k: int| 0 <= k < j ==> prev@[k] == lev(sa, sb, 0, k as nat),
        decreases m + 1 - j,
    {
        prev.push(j);
        j = j + 1;
    }
    let mut cur: Vec<usize> = Vec::new();
    let mut j: usize = 0;
    while j <= m
        invariant
            m == b.len() <= isize::MAX,
            j <= m + 1,
            cur@.len() == j,
        decreases m + 1 - j,
    {
        cur.push(0);
        j = j + 1;
    }
    let mut i: usize = 1;
    while i <= a.len()
        invariant
            sa == a@,
            sb == b@,
            sa == x@,
            sb == y@,
            m == b.len() <= isize::MAX,
            a.len() <= isize::MAX,
            1 <= i <= a.len() + 1,
            prev@.len() == m + 1,
            cur@.len() == m + 1,
            abs_diff(sa.len(), sb.len()) <= cap,
            forall|k: int| 0 <= k <= m ==> prev@[k] == lev(sa, sb, (i - 1) as nat, k as nat),
            forall|r: nat| 1 <= r < i ==> row_min(sa, sb, r, sb.len()) <= cap,
        decreases a.len() + 1 - i,
    {
        cur.set(0, i);
        let mut row_min_v: usize = i;
        proof {
            lemma_lev_bound(sa, sb, i as nat, 0);
        }
        let mut j: usize = 1;
        while j <= m
            invariant
                sa == a@,
                sb == b@,
                m == b.len() <= isize::MAX,
                a.len() <= isize::MAX,
                1 <= i <= a.len(),
                1 <= j <= m + 1,
                prev@.len() == m + 1,
                cur@.len() == m + 1,
                forall|k: int| 0 <= k <= m ==> prev@[k] == lev(sa, sb, (i - 1) as nat, k as nat),
                forall|k: int| 0 <= k < j ==> cur@[k] == lev(sa, sb, i as nat, k as nat),
                row_min_v == row_min(sa, sb, i as nat, (j - 1) as nat),
            decreases m + 1 - j,
        {
            proof {
                lemma_lev_bound(sa, sb, (i - 1) as nat, j as nat);
                lemma_lev_bound(sa, sb, i as nat, (j - 1) as nat);
                lemma_lev_bound(sa, sb, (i - 1) as nat, (j - 1) as nat);
                lemma_lev_bound(sa, sb, i as nat, j as nat);
            }
            let cost: usize = if a[i - 1] != b[j - 1] {
                1
            } else {
                0
            };
            let x = prev[j] + 1;
            let y = cur[j - 1] + 1;
            let z = prev[j - 1] + cost;
            let mut v = if x <= y {
                x
            } else {
                y
            };
            if z < v {
                v = z;
            }
            cur.set(j, v);
            if v < row_min_v {
                row_min_v = v;
            }
            j = j + 1;
        }
        if row_min_v > cap {
            assert(row_min(sa, sb, i as nat, sb.len()) > cap);
            assert(1 <= i as nat <= sa.len());
            assert(exists|r: nat| 1 <= r <= sa.len() && row_min(sa, sb, r, sb.len()) > cap);
            assert(capped_distance(sa, sb, cap as nat) == cap + 1);
            return cap + 1;
        }
        let tmp = prev;
        prev = cur;
        cur = tmp;
        i = i + 1;
    }
    proof {
        assert(!exists|r: nat| 1 <= r <= sa.len() && row_min(sa, sb, r, sb.len()) > cap);
    }
    prev[m]
}

} // verus!
