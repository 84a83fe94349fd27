//! Diagnostics: span-pointing warnings and errors produced by the
//! pipeline. Each record carries a [`Location`], a severity, a stable code
//! and an optional help line; the command-line front end renders them
//! against the [`crate::ast::SourceMap`].
use vstd::prelude::*;

use crate::ast::{Location, SourceId};

verus! {

/// How a diagnostic is rendered.
#[derive(Debug, Clone, Copy, PartialEq, Eq, Structural)]
pub enum Severity {
    Advice,
    Warning,
    Error,
}

/// One diagnostic record. The `code` is a stable identifier (such as
/// `adoc::xref::dangling`).
#[derive(Debug, Clone)]
pub struct Diagnostic {
    pub code: String,
    pub message: String,
    pub help: Option<String>,
    pub severity: Severity,
    /// Where in the document the diagnostic applies.
    pub location: Location,
    /// Text shown under the underlined span.
    pub label: String,
}

impl Diagnostic {
    pub fn warning(code: &str, message: String, location: Location) -> (res: Self)
        ensures
            res.code@ == code@,
            res.message@ == message@,
            res.help is None,
            res.severity == Severity::Warning,
            res.location == location,
            res.label@.len() == 0,
    {
        Diagnostic {
            code: code.to_string(),
            message,
            help: None,
            severity: Severity::Warning,
            location,
            label: String::new(),
        }
    }

    pub fn error(code: &str, message: String, location: Location) -> (res: Self)
        ensures
            res.code@ == code@,
            res.message@ == message@,
            res.help is None,
            res.severity == Severity::Error,
            res.location == location,
            res.label@.len() == 0,
    {
        Diagnostic {
            code: code.to_string(),
            message,
            help: None,
            severity: Severity::Error,
            location,
            label: String::new(),
        }
    }

    pub fn with_help(self, help: String) -> (res: Self)
        ensures
            res.help matches Some(h) && h@ == help@,
            res.code == self.code,
            res.message == self.message,
            res.severity == self.severity,
            res.location == self.location,
            res.label == self.label,
    {
        let mut d = self;
        d.help = Some(help);
        d
    }

    pub fn with_label(self, label: String) -> (res: Self)
        ensures
            res.label@ == label@,
            res.code == self.code,
            res.message == self.message,
            res.help == self.help,
            res.severity == self.severity,
            res.location == self.location,
    {
        let mut d = self;
        d.label = label;
        d
    }

    pub fn source_id(&self) -> (res: SourceId)
        ensures
            res == self.location.source,
    {
        self.location.source
    }

    /// The `(offset, length)` of the underlined span: none for a location
    /// without extent at offset zero (a synthetic one); otherwise at least
    /// one byte long.
    pub fn span_label(&self) -> (res: Option<(usize, usize)>)
        ensures
            ({
                let off = self.location.byte_start as int;
                let len = if self.location.byte_end >= self.location.byte_start {
                    self.location.byte_end - self.location.byte_start
                } else {
                    0
                };
                &&& (len == 0 && off == 0) ==> res is None
                &&& !(len == 0 && off == 0) ==> res == Some(
                    (off as usize, if len >= 1 {
                        len as usize
                    } else {
                        1usize
                    }),
                )
            }),
    {
        let (offset, len) = self.location.span();
        if len == 0 && offset == 0 {
            return None;
        }
        Some((offset, if len >= 1 { len } else { 1 }))
    }
}

/// Append-only collector of diagnostics, in the order they were pushed.
#[derive(Debug, Clone)]
pub struct Diagnostics {
    items: Vec<Diagnostic>,
}

impl Diagnostics {
    /// The collected diagnostics, oldest first.
    pub closed spec fn items(&self) -> Seq<Diagnostic> {
        self.items@
    }

    pub fn new() -> (res: Self)
        ensures
            res.items().len() == 0,
    {
        Diagnostics { items: Vec::new() }
    }

    pub fn push(&mut self, diag: Diagnostic)
        ensures
            final(self).items() == old(self).items().push(diag),
    {
        self.items.push(diag);
    }

    pub fn extend(&mut self, other: Diagnostics)
        ensures
            final(self).items() == old(self).items() + other.items(),
    {
        let mut o = other.items;
        self.items.append(&mut o);
    }

    pub fn len(&self) -> (n: usize)
        ensures
            n == self.items().len(),
    {
        self.items.len()
    }

    pub fn is_empty(&self) -> (b: bool)
        ensures
            b == (self.items().len() == 0),
    {
        self.items.len() == 0
    }

    /// The `i`-th diagnostic.
    pub fn get(&self, i: usize) -> (res: &Diagnostic)
        requires
            i < self.items().len(),
        ensures
            *res == self.items()[i as int],
    {
        &self.items[i]
    }

    pub fn into_vec(self) -> (res: Vec<Diagnostic>)
        ensures
            res@ == self.items(),
    {
        self.items
    }
}

} // verus!
