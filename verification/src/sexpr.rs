//! The expression tree that the parser produces and the evaluator walks.

use vstd::prelude::*;

verus! {

/// A parsed expression: a bare token or a parenthesised group.
#[derive(Debug, PartialEq, Eq)]
pub enum SExpr {
    Atom(String),
    List(Vec<SExpr>),
}

/// The mathematical value of an [`SExpr`].
pub enum Tree {
    Atom(Seq<char>),
    List(Seq<Tree>),
}

impl View for SExpr {
    type V = Tree;

    open spec fn view(&self) -> Tree
        decreases self,
    {
        match self {
            SExpr::Atom(text) => Tree::Atom(text@),
            SExpr::List(items) => Tree::List(forest_view(items)),
        }
    }
}

/// The views of the trees of `items`, in order.
pub open spec fn forest_view(items: &Vec<SExpr>) -> Seq<Tree>
    decreases items,
{
    Seq::new(items.len() as nat, |i: int| if 0 <= i < items.len() { items[i]@ } else { arbitrary() })
}

} // verus!
