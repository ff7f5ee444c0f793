use vstd::prelude::*;

verus! {

/// The kind of construct that has no mapping to the backend's query language.
#[derive(Clone, Copy, Debug, PartialEq, Eq, Structural)]
pub enum NodeKind {
    /// An expression variant that is not compiled.
    Expression,
    /// A comparison opcode that is not compiled.
    Opcode,
    /// A term kind that equality does not encode.
    Term,
    /// A wildcard phrase whose only wildcard is not a single trailing `*`.
    WildcardPhrase,
    /// A range comparison on a term that is not a plain string.
    RangeTerm,
    /// A regex comparison on a term that is not a regex.
    RegexTerm,
}

/// The collaborator whose answer was missing.
#[derive(Clone, Copy, Debug, PartialEq, Eq, Structural)]
pub enum Stage {
    /// Resolving an entity to its backend index name.
    Catalog,
    /// Building the visibility clause of a backend index.
    Visibility,
}

/// Why a query could not be compiled.
#[derive(Debug)]
pub enum DslError {
    UnsupportedConstruct { node_kind: NodeKind },
    PathNotFound { root: String, target: String },
    AmbiguousNestedPath,
    CollaboratorFailure { stage: Stage, entity: String },
}

/// The mathematical value of a [`DslError`].
pub enum ErrV {
    UnsupportedConstruct(NodeKind),
    PathNotFound(Seq<char>, Seq<char>),
    AmbiguousNestedPath,
    CollaboratorFailure(Stage, Seq<char>),
}

impl DslError {
    pub open spec fn view(self) -> ErrV {
        match self {
            DslError::UnsupportedConstruct { node_kind } => ErrV::UnsupportedConstruct(node_kind),
            DslError::PathNotFound { root, target } => ErrV::PathNotFound(root@, target@),
            DslError::AmbiguousNestedPath => ErrV::AmbiguousNestedPath,
            DslError::CollaboratorFailure { stage, entity } => ErrV::CollaboratorFailure(
                stage,
                entity@,
            ),
        }
    }
}

/// `UnsupportedConstruct` of the given kind.
pub fn unsupported(node_kind: NodeKind) -> (r: DslError)
    ensures
        r@ == ErrV::UnsupportedConstruct(node_kind),
{
    DslError::UnsupportedConstruct { node_kind }
}

} // verus!
