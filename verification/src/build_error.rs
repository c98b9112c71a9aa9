//! Errors of the build system.

use vstd::prelude::*;
use crate::location::Span;

verus! {

#[derive(Clone, Copy, Debug, PartialEq, Eq)]
pub enum BuildErrorKind {
    NotFound,
}

#[derive(Clone, Copy, Debug, PartialEq, Eq)]
pub struct BuildError {
    pub span: Span,
    pub kind: BuildErrorKind,
}

/// How serious a diagnostic is.
#[derive(Clone, Copy, Debug, PartialEq, Eq, Structural)]
pub enum Severity {
    Error,
    Warning,
    Info,
}

impl BuildError {
    /// The message shown to the user.
    pub fn message(&self) -> (s: String)
        ensures
            match self.kind {
                BuildErrorKind::NotFound => s@ == "module not found"@,
            },
    {
        match &self.kind {
            BuildErrorKind::NotFound => "module not found".to_string(),
        }
    }

    /// Every build error is an error.
    pub fn severity(&self) -> (s: Severity)
        ensures
            s == Severity::Error,
    {
        Severity::Error
    }

    pub fn location(&self) -> (s: Span)
        ensures
            s == self.span,
    {
        self.span
    }
}

} // verus!
