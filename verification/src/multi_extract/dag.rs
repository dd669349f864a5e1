//! The engine's shared terms, and what can be said of them.
//!
//! Terms are the nodes of a graph, each known by its number. A node's children
//! have smaller numbers than the node itself.

use vstd::prelude::*;

use egglog::{Term, TermDag};

use crate::expr::{Literal, LiteralView};

verus! {

/// The engine's collection of shared terms.
#[verifier::external_type_specification]
#[verifier::external_body]
pub struct ExTermDag(egglog::TermDag);

/// A term: a literal, a variable, or a constructor with its arguments.
#[derive(Debug)]
pub enum Node {
    Lit(Literal),
    Var(String),
    App(String, Vec<usize>),
}

/// A term, as contracts see it.
pub enum NodeView {
    Lit(LiteralView),
    Var(Seq<char>),
    App(Seq<char>, Seq<usize>),
}

impl View for Node {
    type V = NodeView;

    open spec fn view(&self) -> NodeView {
        match self {
            Node::Lit(value) => NodeView::Lit(value@),
            Node::Var(name) => NodeView::Var(name@),
            Node::App(name, children) => NodeView::App(name@, children@),
        }
    }
}

/// Contracts see a term as what it holds, of its own kind.
pub proof fn law_node_view(value: Literal, name: String, children: Vec<usize>)
    ensures
        Node::Lit(value)@ == NodeView::Lit(value@),
        Node::Var(name)@ == NodeView::Var(name@),
        Node::App(name, children)@ == NodeView::App(name@, children@),
{
}

/// The terms of a collection, each at its number.
pub uninterp spec fn dag_nodes(dag: egglog::TermDag) -> Seq<NodeView>;

/// Calls `TermDag::size`, which returns the number of terms.
#[verifier::external_body]
pub(crate) fn dag_size(dag: &TermDag) -> (size: usize)
    ensures
        size == dag_nodes(*dag).len(),
{
    dag.size()
}

/// Calls `TermDag::get`, which returns the term of this number, and panics if
/// there is none. A float literal is handed over as the text that the `Display`
/// of the engine's literals gives for it.
#[verifier::external_body]
pub(crate) fn dag_node(dag: &TermDag, id: usize) -> (node: Node)
    requires
        id < dag_nodes(*dag).len(),
    ensures
        node@ == dag_nodes(*dag)[id as int],
{
    match dag.get(id) {
        Term::Lit(egglog::ast::Literal::Int(n)) => Node::Lit(Literal::Int(*n)),
        Term::Lit(egglog::ast::Literal::String(text)) => Node::Lit(Literal::String(text.clone())),
        Term::Lit(egglog::ast::Literal::Bool(truth)) => Node::Lit(Literal::Bool(*truth)),
        Term::Lit(egglog::ast::Literal::Unit) => Node::Lit(Literal::Unit),
        Term::Lit(float @ egglog::ast::Literal::Float(_)) => {
            Node::Lit(Literal::Float(format!("{float}")))
        },
        Term::Var(name) => Node::Var(name.clone()),
        Term::App(name, children) => Node::App(name.clone(), children.clone()),
    }
}

/// The children of a node.
pub open spec fn children(nodes: Seq<NodeView>, id: usize) -> Seq<usize> {
    match nodes[id as int] {
        NodeView::App(_, children) => children,
        _ => Seq::empty(),
    }
}

/// Whether each node's children have smaller numbers than the node.
pub open spec fn ordered(nodes: Seq<NodeView>) -> bool {
    forall|id: usize, k: int|
        id < nodes.len() && 0 <= k < children(nodes, id).len() ==> #[trigger] children(nodes, id)[k]
            < id
}

/// Whether one node is another, or a part of it.
pub open spec fn reaches(nodes: Seq<NodeView>, from: usize, to: usize) -> bool
    decreases from,
{
    from == to || exists|k: int|
        0 <= k < children(nodes, from).len() && #[trigger] children(nodes, from)[k] < from
            && reaches(nodes, children(nodes, from)[k], to)
}

/// A node and all its parts.
pub open spec fn parts(nodes: Seq<NodeView>, id: usize) -> Set<usize> {
    Set::new(|part: usize| reaches(nodes, id, part))
}

/// Some nodes and all their parts.
pub open spec fn all_parts(nodes: Seq<NodeView>, ids: Seq<usize>) -> Set<usize> {
    Set::new(
        |part: usize| exists|k: int| 0 <= k < ids.len() && reaches(nodes, #[trigger] ids[k], part),
    )
}

/// How many nodes a term has when it is written out as a tree.
pub open spec fn tree_size(nodes: Seq<NodeView>, id: usize) -> nat
    decreases id, children(nodes, id).len() + 1,
{
    1 + forest_size(nodes, children(nodes, id), id)
}

/// How many nodes terms have together when they are written out as trees, those
/// with numbers below `bound`.
pub open spec fn forest_size(nodes: Seq<NodeView>, ids: Seq<usize>, bound: usize) -> nat
    decreases bound, ids.len(),
{
    if ids.len() == 0 {
        0
    } else {
        forest_size(nodes, ids.drop_last(), bound) + if ids.last() < bound {
            tree_size(nodes, ids.last())
        } else {
            0
        }
    }
}

/// How often a number occurs.
pub open spec fn occurrences(ids: Seq<usize>, id: usize) -> nat
    decreases ids.len(),
{
    if ids.len() == 0 {
        0
    } else {
        occurrences(ids.drop_last(), id) + if ids.last() == id {
            1nat
        } else {
            0
        }
    }
}

/// How often a node is a child of the nodes in `from`, those with numbers below
/// `bound`.
pub open spec fn references_below(
    nodes: Seq<NodeView>,
    from: Set<usize>,
    id: usize,
    bound: nat,
) -> nat
    decreases bound,
{
    if bound == 0 {
        0
    } else {
        let last = (bound - 1) as usize;
        references_below(nodes, from, id, (bound - 1) as nat) + if from.contains(last) {
            occurrences(children(nodes, last), id)
        } else {
            0
        }
    }
}

/// How often a node is a child of the nodes in `from`.
pub open spec fn references(nodes: Seq<NodeView>, from: Set<usize>, id: usize) -> nat {
    references_below(nodes, from, id, nodes.len())
}

/// How often a node is used when `roots` are printed: among them, and as a
/// child of one of their parts, each part taken once.
pub open spec fn uses(nodes: Seq<NodeView>, roots: Seq<usize>, id: usize) -> nat {
    occurrences(roots, id) + references(nodes, all_parts(nodes, roots), id)
}

/// How many children the nodes with numbers below `bound` have together.
pub open spec fn edges_below(nodes: Seq<NodeView>, bound: nat) -> nat
    decreases bound,
{
    if bound == 0 {
        0
    } else {
        edges_below(nodes, (bound - 1) as nat) + children(nodes, (bound - 1) as usize).len()
    }
}

/// How many children the nodes have together.
pub open spec fn edges(nodes: Seq<NodeView>) -> nat {
    edges_below(nodes, nodes.len())
}

/// A part of a part is a part.
pub proof fn law_parts_of_parts(nodes: Seq<NodeView>, id: usize, part: usize, inner: usize)
    requires
        reaches(nodes, id, part),
        reaches(nodes, part, inner),
    ensures
        reaches(nodes, id, inner),
    decreases id,
{
    if id != part {
        let k = choose|k: int|
            0 <= k < children(nodes, id).len() && #[trigger] children(nodes, id)[k] < id && reaches(
                nodes,
                children(nodes, id)[k],
                part,
            );
        law_parts_of_parts(nodes, children(nodes, id)[k], part, inner);
    }
}

/// A part has no greater number than what it is a part of, and no greater size.
pub proof fn law_parts_are_smaller(nodes: Seq<NodeView>, id: usize, part: usize)
    requires
        reaches(nodes, id, part),
    ensures
        part <= id,
        tree_size(nodes, part) <= tree_size(nodes, id),
    decreases id,
{
    if id != part {
        let k = choose|k: int|
            0 <= k < children(nodes, id).len() && #[trigger] children(nodes, id)[k] < id && reaches(
                nodes,
                children(nodes, id)[k],
                part,
            );
        law_parts_are_smaller(nodes, children(nodes, id)[k], part);
        lemma_forest_size(nodes, children(nodes, id), id, k);
    }
}

proof fn lemma_forest_size(nodes: Seq<NodeView>, ids: Seq<usize>, bound: usize, k: int)
    requires
        0 <= k < ids.len(),
        ids[k] < bound,
    ensures
        tree_size(nodes, ids[k]) <= forest_size(nodes, ids, bound),
    decreases ids.len(),
{
    if k < ids.len() - 1 {
        lemma_forest_size(nodes, ids.drop_last(), bound, k);
    }
}

/// What is used when `roots` are printed are just their parts.
pub proof fn law_used_are_parts(nodes: Seq<NodeView>, roots: Seq<usize>, id: usize)
    requires
        ordered(nodes),
        nodes.len() <= usize::MAX,
        forall|k: int| 0 <= k < roots.len() ==> #[trigger] roots[k] < nodes.len(),
    ensures
        uses(nodes, roots, id) > 0 <==> all_parts(nodes, roots).contains(id),
{
    let all = all_parts(nodes, roots);
    lemma_occurs(roots, id);
    lemma_referenced(nodes, all, id, nodes.len());
    if occurrences(roots, id) > 0 {
        let k = choose|k: int| 0 <= k < roots.len() && roots[k] == id;
        assert(reaches(nodes, roots[k], id));
    }
    if references(nodes, all, id) > 0 {
        let parent = choose|parent: usize|
            #![trigger children(nodes, parent)]
            parent < nodes.len() && all.contains(parent) && children(nodes, parent).contains(id);
        let k = choose|k: int| 0 <= k < roots.len() && reaches(nodes, #[trigger] roots[k], parent);
        lemma_child_is_part(nodes, parent, id);
        law_parts_of_parts(nodes, roots[k], parent, id);
    }
    if all.contains(id) {
        let k = choose|k: int| 0 <= k < roots.len() && reaches(nodes, #[trigger] roots[k], id);
        if roots[k] != id {
            let parent = lemma_parent(nodes, roots[k], id);
            law_parts_are_smaller(nodes, roots[k], parent);
            assert(all.contains(parent));
        }
    }
}

/// A number occurs just if it is among the others.
pub proof fn lemma_occurs(ids: Seq<usize>, id: usize)
    ensures
        occurrences(ids, id) > 0 <==> ids.contains(id),
    decreases ids.len(),
{
    if ids.len() > 0 {
        let front = ids.drop_last();
        lemma_occurs(front, id);
        if front.contains(id) {
            let k = choose|k: int| 0 <= k < front.len() && front[k] == id;
            assert(ids[k] == id);
        }
        if ids.contains(id) && ids.last() != id {
            let k = choose|k: int| 0 <= k < ids.len() && ids[k] == id;
            assert(front[k] == id);
        }
        if ids.last() == id {
            assert(ids[ids.len() - 1] == id);
        }
    }
}

proof fn lemma_referenced(nodes: Seq<NodeView>, from: Set<usize>, id: usize, bound: nat)
    requires
        bound <= usize::MAX,
    ensures
        references_below(nodes, from, id, bound) > 0 <==> exists|parent: usize|
            #![trigger children(nodes, parent)]
            parent < bound && from.contains(parent) && children(nodes, parent).contains(id),
    decreases bound,
{
    if bound > 0 {
        let last = (bound - 1) as usize;
        lemma_referenced(nodes, from, id, (bound - 1) as nat);
        lemma_occurs(children(nodes, last), id);
    }
}

proof fn lemma_child_is_part(nodes: Seq<NodeView>, parent: usize, id: usize)
    requires
        ordered(nodes),
        parent < nodes.len(),
        children(nodes, parent).contains(id),
    ensures
        reaches(nodes, parent, id),
{
    let k = choose|k: int| 0 <= k < children(nodes, parent).len() && children(nodes, parent)[k] == id;
    assert(children(nodes, parent)[k] < parent);
    assert(reaches(nodes, id, id));
}

/// A proper part is a child of the term or of another part.
pub proof fn lemma_parent(nodes: Seq<NodeView>, from: usize, id: usize) -> (parent: usize)
    requires
        reaches(nodes, from, id),
        from != id,
    ensures
        reaches(nodes, from, parent),
        children(nodes, parent).contains(id),
    decreases from,
{
    let k = choose|k: int|
        0 <= k < children(nodes, from).len() && #[trigger] children(nodes, from)[k] < from
            && reaches(nodes, children(nodes, from)[k], id);
    let child = children(nodes, from)[k];
    if child == id {
        from
    } else {
        let parent = lemma_parent(nodes, child, id);
        assert(reaches(nodes, children(nodes, from)[k], parent));
        parent
    }
}

} // verus!
