use vstd::prelude::*;

use crate::span::Span;

verus! {

/// How an atom's name reads: it decides the atom's token category.
#[derive(Debug, Clone, Copy, PartialEq, Eq, Structural)]
pub enum AtomKind {
    Keyword,
    Operator,
    Int,
    Float,
    Plain,
}

/// An atom: a name, where it stands, and the processes given as arguments.
pub struct Atom {
    pub name: String,
    pub kind: AtomKind,
    pub name_span: Span,
    pub args: Vec<Process>,
    pub span: Span,
}

/// A link, or a hyperlink, by name.
pub struct Link {
    pub name: String,
    pub hyperlink: bool,
    pub span: Span,
}

/// A process: what a process list holds and what an atom takes as argument.
pub enum Process {
    Membrane(Membrane),
    Atom(Atom),
    Link(Link),
    Context(Span),
}

/// An ordered list of processes.
pub struct ProcessList {
    pub processes: Vec<Process>,
    pub span: Span,
}

/// A rewrite rule. An anonymous rule has an empty name and an empty name span.
pub struct Rule {
    pub name: String,
    pub name_span: Span,
    pub head: ProcessList,
    pub propagation: Option<ProcessList>,
    pub guard: Option<ProcessList>,
    pub body: Option<ProcessList>,
    pub span: Span,
}

/// A membrane: process lists and rules inside a named or anonymous boundary.
/// A whole program is a membrane too, the outermost one.
pub struct Membrane {
    pub name: String,
    pub name_span: Span,
    pub process_lists: Vec<ProcessList>,
    pub rules: Vec<Rule>,
    pub span: Span,
}

} // verus!
