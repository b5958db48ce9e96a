//! Diagnostics (errors, warnings, notes) and the sink that collects them.
use vstd::prelude::*;
use crate::span::Span;

verus! {

#[derive(Clone, Copy, Debug, PartialEq, Eq, Structural)]
pub enum Severity {
    Error,
    Warning,
    Info,
    Hint,
}

#[derive(Clone, Copy, Debug, PartialEq, Eq, Structural)]
pub enum LabelStyle {
    Primary,
    Secondary,
}

/// A message attached to a span of source text.
#[derive(Clone, Debug)]
pub struct Label {
    pub span: Span,
    pub message: String,
    pub style: LabelStyle,
}

impl Label {
    pub fn primary(span: Span, message: &str) -> (l: Self)
        ensures
            l.span == span,
            l.message@ == message@,
            l.style == LabelStyle::Primary,
    {
        Self { span, message: String::from_str(message), style: LabelStyle::Primary }
    }

    pub fn secondary(span: Span, message: &str) -> (l: Self)
        ensures
            l.span == span,
            l.message@ == message@,
            l.style == LabelStyle::Secondary,
    {
        Self { span, message: String::from_str(message), style: LabelStyle::Secondary }
    }
}

/// A proposed replacement of the text of `span`.
#[derive(Clone, Debug)]
pub struct Suggestion {
    pub message: String,
    pub span: Span,
    pub replacement: String,
}

#[derive(Clone, Debug)]
pub struct Diagnostic {
    pub severity: Severity,
    pub message: String,
    pub code: Option<String>,
    pub labels: Vec<Label>,
    pub notes: Vec<String>,
    pub suggestions: Vec<Suggestion>,
}

/// A diagnostic of the given severity and message with nothing attached.
pub open spec fn bare_diagnostic(d: Diagnostic, severity: Severity, message: Seq<char>) -> bool {
    &&& d.severity == severity
    &&& d.message@ == message
    &&& d.code is None
    &&& d.labels@.len() == 0
    &&& d.notes@.len() == 0
    &&& d.suggestions@.len() == 0
}

impl Diagnostic {
    pub fn error(message: &str) -> (d: Self)
        ensures
            bare_diagnostic(d, Severity::Error, message@),
    {
        Self {
            severity: Severity::Error,
            message: String::from_str(message),
            code: None,
            labels: Vec::new(),
            notes: Vec::new(),
            suggestions: Vec::new(),
        }
    }

    pub fn warning(message: &str) -> (d: Self)
        ensures
            bare_diagnostic(d, Severity::Warning, message@),
    {
        Self {
            severity: Severity::Warning,
            message: String::from_str(message),
            code: None,
            labels: Vec::new(),
            notes: Vec::new(),
            suggestions: Vec::new(),
        }
    }

    pub fn with_code(self, code: &str) -> (d: Self)
        ensures
            d.code matches Some(c) && c@ == code@,
            d.severity == self.severity,
            d.message == self.message,
            d.labels == self.labels,
            d.notes == self.notes,
            d.suggestions == self.suggestions,
    {
        let mut d = self;
        d.code = Some(String::from_str(code));
        d
    }

    pub fn with_label(self, label: Label) -> (d: Self)
        ensures
            d.labels@ == self.labels@.push(label),
            d.severity == self.severity,
            d.message == self.message,
            d.code == self.code,
            d.notes == self.notes,
            d.suggestions == self.suggestions,
    {
        let mut d = self;
        d.labels.push(label);
        d
    }

    pub fn with_note(self, note: &str) -> (d: Self)
        ensures
            d.notes@.len() == self.notes@.len() + 1,
            d.notes@.take(self.notes@.len() as int) == self.notes@,
            d.notes@.last()@ == note@,
            d.severity == self.severity,
            d.message == self.message,
            d.code == self.code,
            d.labels == self.labels,
            d.suggestions == self.suggestions,
    {
        let mut d = self;
        d.notes.push(String::from_str(note));
        proof {
            assert(d.notes@.take(self.notes@.len() as int) =~= self.notes@);
        }
        d
    }

    pub fn with_suggestion(self, suggestion: Suggestion) -> (d: Self)
        ensures
            d.suggestions@ == self.suggestions@.push(suggestion),
            d.severity == self.severity,
            d.message == self.message,
            d.code == self.code,
            d.labels == self.labels,
            d.notes == self.notes,
    {
        let mut d = self;
        d.suggestions.push(suggestion);
        d
    }
}

/// Collects diagnostics across compilation phases, in the order they are emitted.
pub struct DiagnosticSink {
    diagnostics: Vec<Diagnostic>,
}

/// Whether some diagnostic of `ds` is an error.
pub open spec fn has_error(ds: Seq<Diagnostic>) -> bool {
    exists|i: int| 0 <= i < ds.len() && (#[trigger] ds[i]).severity == Severity::Error
}

impl View for DiagnosticSink {
    type V = Seq<Diagnostic>;

    closed spec fn view(&self) -> Seq<Diagnostic> {
        self.diagnostics@
    }
}

impl DiagnosticSink {
    pub fn new() -> (s: Self)
        ensures
            s@ == Seq::<Diagnostic>::empty(),
    {
        DiagnosticSink { diagnostics: Vec::new() }
    }

    pub fn emit(&mut self, diag: Diagnostic)
        ensures
            final(self)@ == old(self)@.push(diag),
    {
        self.diagnostics.push(diag);
    }

    pub fn has_errors(&self) -> (b: bool)
        ensures
            b == has_error(self@),
    {
        let mut i: usize = 0;
        while i < self.diagnostics.len()
            invariant
                0 <= i <= self.diagnostics@.len(),
                forall|j: int| 0 <= j < i ==> (#[trigger] self.diagnostics@[j]).severity != Severity::Error,
            decreases self.diagnostics@.len() - i,
        {
            if self.diagnostics[i].severity == Severity::Error {
                return true;
            }
            i = i + 1;
        }
        false
    }

    pub fn diagnostics(&self) -> (r: &[Diagnostic])
        ensures
            r@ == self@,
    {
        self.diagnostics.as_slice()
    }

    pub fn into_diagnostics(self) -> (r: Vec<Diagnostic>)
        ensures
            r@ == self@,
    {
        self.diagnostics
    }
}

/// Emitting keeps every diagnostic emitted before, in order, and an emitted error
/// makes the sink report errors from then on.
pub proof fn lemma_emit_keeps_errors(before: Seq<Diagnostic>, d: Diagnostic)
    ensures
        before.push(d).take(before.len() as int) == before,
        has_error(before) ==> has_error(before.push(d)),
        d.severity == Severity::Error ==> has_error(before.push(d)),
        has_error(before.push(d)) == (has_error(before) || d.severity == Severity::Error),
{
    let after = before.push(d);
    assert(after.take(before.len() as int) =~= before);
    if has_error(before) {
        let i = choose|i: int| 0 <= i < before.len() && (#[trigger] before[i]).severity == Severity::Error;
        assert(after[i] == before[i]);
    }
    if d.severity == Severity::Error {
        assert(after[before.len() as int] == d);
    }
    if has_error(after) {
        let i = choose|i: int| 0 <= i < after.len() && (#[trigger] after[i]).severity == Severity::Error;
        if i < before.len() {
            assert(before[i] == after[i]);
        }
    }
}

} // verus!
