//! Why a layout, or a template, could not be built.
use vstd::prelude::*;

verus! {

#[derive(Clone, Copy, Debug, PartialEq, Eq, Structural)]
pub enum Error {
    /// A label of the template of `node` does not form exactly one
    /// rectangle; `(x, y)` is the cell that showed it, `found` its label and
    /// `expected` the label whose rectangle was being checked.
    InvalidShape { node: usize, x: usize, y: usize, expected: usize, found: usize },
    /// A leaf lacks a width or a height, or has one with a zero denominator.
    UndefinedLeafSize { node: usize },
    /// No node has this id.
    NodeNotFound { node: usize },
    /// A handle that does not name a node of this layout tree.
    UnknownNode,
    /// A template row whose length differs from the first row's.
    UnbalancedLine { line: usize, expected: usize, got: usize },
    /// A template without any cell.
    EmptyTemplate,
    /// A coordinate whose exact value does not fit the number representation.
    Overflow,
}

} // verus!
