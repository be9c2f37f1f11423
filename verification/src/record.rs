//! A record: one annotation with the place it points at.

use vstd::prelude::*;
use crate::span::Span;

verus! {

/// One annotation: the file it speaks of, the span within that file, and the
/// lines of its text, in order.
#[derive(Debug, Clone, PartialEq, Eq)]
pub struct Record {
    pub path: String,
    pub span: Span,
    pub body: Vec<String>,
}

/// A record as a mathematical value.
pub struct RecordView {
    pub path: Seq<char>,
    pub span: Span,
    pub body: Seq<Seq<char>>,
}

impl View for Record {
    type V = RecordView;

    open spec fn view(&self) -> RecordView {
        RecordView { path: self.path@, span: self.span, body: self.body.deep_view() }
    }
}

impl DeepView for Record {
    type V = RecordView;

    open spec fn deep_view(&self) -> RecordView {
        self@
    }
}

impl RecordView {
    /// The record with one more line at the end of its body.
    pub open spec fn with_line(self, line: Seq<char>) -> RecordView {
        RecordView { path: self.path, span: self.span, body: self.body.push(line) }
    }
}

} // verus!
