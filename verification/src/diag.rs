//! Diagnostics: what validation and loading report, and how a finding renders.

use vstd::prelude::*;
use crate::text::owned;

verus! {

#[derive(Clone, Copy, PartialEq, Eq, Structural, Debug)]
pub enum Severity {
    Error,
    Warning,
}

pub struct Diagnostic {
    pub severity: Severity,
    pub code: &'static str,
    pub file: Option<String>,
    pub line: Option<usize>,
    pub entity: Option<String>,
    pub path: Option<String>,
    pub message: String,
    pub suggestion: Option<String>,
}

pub struct DiagnosticV {
    pub severity: Severity,
    pub code: Seq<char>,
    pub file: Option<Seq<char>>,
    pub line: Option<usize>,
    pub entity: Option<Seq<char>>,
    pub path: Option<Seq<char>>,
    pub message: Seq<char>,
    pub suggestion: Option<Seq<char>>,
}

pub open spec fn opt_view(v: Option<String>) -> Option<Seq<char>> {
    match v {
        Some(s) => Some(s@),
        None => None,
    }
}

impl View for Diagnostic {
    type V = DiagnosticV;

    open spec fn view(&self) -> DiagnosticV {
        DiagnosticV {
            severity: self.severity,
            code: self.code@,
            file: opt_view(self.file),
            line: self.line,
            entity: opt_view(self.entity),
            path: opt_view(self.path),
            message: self.message@,
            suggestion: opt_view(self.suggestion),
        }
    }
}

pub open spec fn diags_view(v: Seq<Diagnostic>) -> Seq<DiagnosticV> {
    v.map_values(|d: Diagnostic| d@)
}

/// The decimal digit for `d < 10`.
pub open spec fn digit_char(d: nat) -> char {
    if d == 0 {
        '0'
    } else if d == 1 {
        '1'
    } else if d == 2 {
        '2'
    } else if d == 3 {
        '3'
    } else if d == 4 {
        '4'
    } else if d == 5 {
        '5'
    } else if d == 6 {
        '6'
    } else if d == 7 {
        '7'
    } else if d == 8 {
        '8'
    } else {
        '9'
    }
}

/// Decimal notation of a number, as `{}` formats it.
pub open spec fn decimal(n: nat) -> Seq<char>
    decreases n,
{
    if n < 10 {
        seq![digit_char(n)]
    } else {
        decimal(n / 10).push(digit_char(n % 10))
    }
}

fn digit(d: usize) -> (c: char)
    requires
        d < 10,
    ensures
        c == digit_char(d as nat),
{
    if d == 0 {
        '0'
    } else if d == 1 {
        '1'
    } else if d == 2 {
        '2'
    } else if d == 3 {
        '3'
    } else if d == 4 {
        '4'
    } else if d == 5 {
        '5'
    } else if d == 6 {
        '6'
    } else if d == 7 {
        '7'
    } else if d == 8 {
        '8'
    } else {
        '9'
    }
}

/// `n` in decimal.
pub fn decimal_string(n: usize) -> (r: String)
    ensures
        r@ == decimal(n as nat),
    decreases n,
{
    if n < 10 {
        let mut s = String::new();
        s.push(digit(n));
        assert(s@ =~= seq![digit_char(n as nat)]);
        s
    } else {
        let mut s = decimal_string(n / 10);
        s.push(digit(n % 10));
        s
    }
}

/// `n` in decimal.
pub fn decimal_u64(n: u64) -> (r: String)
    ensures
        r@ == decimal(n as nat),
    decreases n,
{
    if n < 10 {
        let mut s = String::new();
        s.push(digit(n as usize));
        assert(s@ =~= seq![digit_char(n as nat)]);
        s
    } else {
        let mut s = decimal_u64(n / 10);
        s.push(digit((n % 10) as usize));
        s
    }
}

pub open spec fn severity_name(s: Severity) -> Seq<char> {
    match s {
        Severity::Error => "error"@,
        Severity::Warning => "warning"@,
    }
}

/// The location prefix: `file[:line]`, ` (entity)`, ` path`, as present.
pub open spec fn location_text(d: DiagnosticV) -> Seq<char> {
    (match d.file {
        Some(f) => f + match d.line {
            Some(l) => seq![':'] + decimal(l as nat),
            None => Seq::<char>::empty(),
        },
        None => Seq::<char>::empty(),
    }) + (match d.entity {
        Some(e) => " ("@ + e + ")"@,
        None => Seq::<char>::empty(),
    }) + (match d.path {
        Some(p) => " "@ + p,
        None => Seq::<char>::empty(),
    })
}

/// `severity[code]: message`.
pub open spec fn headline_text(d: DiagnosticV) -> Seq<char> {
    severity_name(d.severity) + "["@ + d.code + "]: "@ + d.message
}

/// How a diagnostic renders for a human.
pub open spec fn render_text(d: DiagnosticV) -> Seq<char> {
    let loc = location_text(d);
    let main = if loc.len() == 0 {
        headline_text(d)
    } else {
        loc + "\n  "@ + headline_text(d)
    };
    match d.suggestion {
        Some(s) => main + "\n  → "@ + s,
        None => main,
    }
}

impl Diagnostic {
    /// An error with no line, entity, path or suggestion.
    pub fn err(code: &'static str, file: Option<String>, message: String) -> (r: Self)
        ensures
            r@ == (DiagnosticV {
                severity: Severity::Error,
                code: code@,
                file: opt_view(file),
                line: None,
                entity: None,
                path: None,
                message: message@,
                suggestion: None,
            }),
    {
        Diagnostic {
            severity: Severity::Error,
            code,
            file,
            line: None,
            entity: None,
            path: None,
            message,
            suggestion: None,
        }
    }

    pub fn duplicate(&self) -> (r: Self)
        ensures
            r@ == self@,
    {
        Diagnostic {
            severity: self.severity,
            code: self.code,
            file: self.file.clone(),
            line: self.line,
            entity: self.entity.clone(),
            path: self.path.clone(),
            message: self.message.clone(),
            suggestion: self.suggestion.clone(),
        }
    }

    pub fn render(&self) -> (r: String)
        ensures
            r@ == render_text(self@),
    {
        let mut loc = String::new();
        match &self.file {
            Some(f) => {
                loc.append(f.as_str());
                match self.line {
                    Some(l) => {
                        loc.push(':');
                        loc.append(decimal_string(l).as_str());
                    },
                    None => {},
                }
            },
            None => {},
        }
        match &self.entity {
            Some(e) => {
                loc.append(" (");
                loc.append(e.as_str());
                loc.append(")");
            },
            None => {},
        }
        match &self.path {
            Some(p) => {
                loc.append(" ");
                loc.append(p.as_str());
            },
            None => {},
        }
        let ghost d = self@;
        assert(loc@ =~= location_text(d));
        let sev = match self.severity {
            Severity::Error => "error",
            Severity::Warning => "warning",
        };
        let mut head = owned(sev);
        head.append("[");
        head.append(self.code);
        head.append("]: ");
        head.append(self.message.as_str());
        assert(head@ =~= headline_text(d));
        let mut out = if loc.as_str().is_empty() {
            head
        } else {
            let mut o = loc;
            o.append("\n  ");
            o.append(head.as_str());
            o
        };
        match &self.suggestion {
            Some(s) => {
                out.append("\n  → ");
                out.append(s.as_str());
            },
            None => {},
        }
        out
    }
}

/// Number of errors among the findings.
pub open spec fn error_count(v: Seq<DiagnosticV>) -> nat
    decreases v.len(),
{
    if v.len() == 0 {
        0
    } else {
        error_count(v.drop_last()) + if v.last().severity == Severity::Error {
            1nat
        } else {
            0nat
        }
    }
}

proof fn lemma_error_count_le(v: Seq<DiagnosticV>)
    ensures
        error_count(v) <= v.len(),
    decreases v.len(),
{
    if v.len() > 0 {
        lemma_error_count_le(v.drop_last());
    }
}

pub struct Report {
    pub diags: Vec<Diagnostic>,
}

impl Report {
    pub fn errors(&self) -> (r: usize)
        ensures
            r == error_count(diags_view(self.diags@)),
    {
        let mut n: usize = 0;
        let mut i: usize = 0;
        while i < self.diags.len()
            invariant
                i <= self.diags.len(),
                n == error_count(diags_view(self.diags@.take(i as int))),
                n <= i,
            decreases self.diags.len() - i,
        {
            proof {
                assert(diags_view(self.diags@.take(i + 1)).drop_last() =~= diags_view(
                    self.diags@.take(i as int),
                ));
            }
            if self.diags[i].severity == Severity::Error {
                n = n + 1;
            }
            i = i + 1;
        }
        assert(self.diags@.take(i as int) =~= self.diags@);
        n
    }

    /// Findings that are not errors.
    pub fn warnings(&self) -> (r: usize)
        ensures
            r + error_count(diags_view(self.diags@)) == self.diags@.len(),
    {
        proof {
            lemma_error_count_le(diags_view(self.diags@));
        }
        self.diags.len() - self.errors()
    }
}

} // verus!
