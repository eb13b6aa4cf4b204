use vstd::prelude::*;

verus! {

/// The semantic category of a region of a document, with preserved and
/// discarded comments told apart.
#[derive(Clone, Copy, Debug, PartialEq, Eq, Structural)]
pub enum Kind {
    Directive,
    Documentation,
    PreservedComment,
    Comment,
    Source,
}

} // verus!
