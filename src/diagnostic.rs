use vstd::prelude::*;

use crate::span::Span;

verus! {

/// What is wrong with a link occurrence.
#[derive(Debug, Clone, Copy, PartialEq, Eq, Structural)]
pub enum LinkDiagnosticKind {
    /// A link stands directly in the program's outermost process list.
    LinkAtTopLevel,
    /// A link name occurs once where it must be settled.
    FreeLink,
    /// A link name occurs a third time or more; the first two occurrences
    /// are cited.
    MultiOccurrence { first: Span, second: Span },
}

/// A diagnostic on one link occurrence. Every such diagnostic is an error.
#[derive(Debug, Clone, Copy, PartialEq, Eq, Structural)]
pub struct LinkDiagnostic {
    pub kind: LinkDiagnosticKind,
    pub span: Span,
}

impl LinkDiagnostic {
    /// The message shown for the diagnostic.
    pub fn message(&self) -> (r: &'static str)
        ensures
            self.kind is LinkAtTopLevel ==> r@ == "Link at top level"@,
            self.kind is FreeLink ==> r@ == "Free link"@,
            self.kind is MultiOccurrence ==> r@ == "Link occurs more than twice"@,
    {
        match self.kind {
            LinkDiagnosticKind::LinkAtTopLevel => "Link at top level",
            LinkDiagnosticKind::FreeLink => "Free link",
            LinkDiagnosticKind::MultiOccurrence { .. } => "Link occurs more than twice",
        }
    }

    /// The related places, each with its label: for a repeated link, its
    /// first and second occurrences; none otherwise.
    pub fn related(&self) -> (r: Vec<(Span, &'static str)>)
        ensures
            self.kind matches LinkDiagnosticKind::MultiOccurrence { first, second } ==> {
                &&& r@.len() == 2
                &&& r@[0].0 == first && r@[0].1@ == "First occurrence"@
                &&& r@[1].0 == second && r@[1].1@ == "Second occurrence"@
            },
            !(self.kind is MultiOccurrence) ==> r@.len() == 0,
    {
        match self.kind {
            LinkDiagnosticKind::MultiOccurrence { first, second } => {
                vec![(first, "First occurrence"), (second, "Second occurrence")]
            },
            _ => Vec::new(),
        }
    }
}

} // verus!
