//! The syntax tree built by the parser and walked by the semantic analyzer.

use vstd::prelude::*;

use crate::token::{Token, TokenView};

verus! {

/// The mathematical content of a [`SyntaxTreeNode`]: its token and the
/// views of its children, in order.
pub ghost struct NodeView {
    pub token: TokenView,
    pub children: Seq<NodeView>,
}

/// One node of the syntax tree. A leaf wraps a terminal token (pushed on
/// shift); an internal node wraps a synthetic token whose kind is a
/// nonterminal name and whose lexeme is empty (built on reduce). Each node
/// exclusively owns its children.
#[derive(Debug, PartialEq, Eq)]
pub struct SyntaxTreeNode {
    pub token: Token,
    pub children: Vec<SyntaxTreeNode>,
}

/// The views of a node sequence, in order.
pub open spec fn forest_view(s: Seq<SyntaxTreeNode>) -> Seq<NodeView>
    decreases s,
{
    if s.len() == 0 {
        Seq::empty()
    } else {
        forest_view(s.drop_last()).push(
            NodeView {
                token: s.last().token@,
                children: forest_view(s.last().children@),
            },
        )
    }
}

/// The view of a single node.
pub open spec fn node_view(n: SyntaxTreeNode) -> NodeView {
    NodeView { token: n.token@, children: forest_view(n.children@) }
}

impl View for SyntaxTreeNode {
    type V = NodeView;

    open spec fn view(&self) -> NodeView {
        node_view(*self)
    }
}

/// `forest_view` maps the sequence element by element.
pub proof fn lemma_forest_view_index(s: Seq<SyntaxTreeNode>)
    ensures
        forest_view(s).len() == s.len(),
        forall|i: int| 0 <= i < s.len() ==> forest_view(s)[i] == node_view(s[i]),
    decreases s.len(),
{
    if s.len() > 0 {
        lemma_forest_view_index(s.drop_last());
    }
}

} // verus!
