//! The sink that passes report errors and warnings to.
use vstd::prelude::*;

verus! {

#[derive(Clone, Copy, Debug, PartialEq, Eq, Structural)]
pub enum Severity {
    Error,
    Warning,
}

/// What a diagnostic is about.
#[derive(Clone, Copy, Debug, PartialEq, Eq, Structural)]
pub enum DiagnosticKind {
    /// A popup placed directly in a layout.
    PopupInLayout,
    /// A popup that is the root of a repeated or conditional component.
    PopupRepeatedOrConditional,
    /// A `close-on-click` binding that is not a boolean literal.
    CloseOnClickNotConstant,
    /// A reference from the enclosing component into a popup.
    PopupInsideAccess,
}

impl DiagnosticKind {
    /// The text shown to the user.
    pub fn message(&self) -> &'static str {
        match self {
            DiagnosticKind::PopupInLayout => "PopupWindow shouldn't be a children of a layout",
            DiagnosticKind::PopupRepeatedOrConditional => "PopupWindow cannot be directly repeated or conditional",
            DiagnosticKind::CloseOnClickNotConstant => "The close-on-click property only supports constants at the moment",
            DiagnosticKind::PopupInsideAccess => "Cannot access the inside of a PopupWindow from enclosing component",
        }
    }
}

/// A diagnostic, located at the element it concerns.
#[derive(Clone, Copy, Debug, PartialEq, Eq, Structural)]
pub struct Diagnostic {
    pub level: Severity,
    pub kind: DiagnosticKind,
    pub element: usize,
}

pub struct BuildDiagnostics {
    pub diagnostics: Vec<Diagnostic>,
}

pub open spec fn error_at(kind: DiagnosticKind, element: usize) -> Diagnostic {
    Diagnostic { level: Severity::Error, kind, element }
}

pub open spec fn warning_at(kind: DiagnosticKind, element: usize) -> Diagnostic {
    Diagnostic { level: Severity::Warning, kind, element }
}

impl BuildDiagnostics {
    pub fn new() -> (r: BuildDiagnostics)
        ensures
            r.diagnostics@ == Seq::<Diagnostic>::empty(),
    {
        BuildDiagnostics { diagnostics: Vec::new() }
    }

    pub fn push_error(&mut self, kind: DiagnosticKind, element: usize)
        ensures
            final(self).diagnostics@ == old(self).diagnostics@.push(error_at(kind, element)),
    {
        self.diagnostics.push(Diagnostic { level: Severity::Error, kind, element });
    }

    pub fn push_warning(&mut self, kind: DiagnosticKind, element: usize)
        ensures
            final(self).diagnostics@ == old(self).diagnostics@.push(warning_at(kind, element)),
    {
        self.diagnostics.push(Diagnostic { level: Severity::Warning, kind, element });
    }

    pub fn has_errors(&self) -> (r: bool)
        ensures
            r == exists|i: int| 0 <= i < self.diagnostics@.len() && (#[trigger] self.diagnostics@[i]).level == Severity::Error,
    {
        let mut i: usize = 0;
        while i < self.diagnostics.len()
            invariant
                i <= self.diagnostics@.len(),
                forall|j: int| 0 <= j < i ==> (#[trigger] self.diagnostics@[j]).level != Severity::Error,
            decreases self.diagnostics@.len() - i,
        {
            if self.diagnostics[i].level == Severity::Error {
                return true;
            }
            i = i + 1;
        }
        false
    }
}

} // verus!
