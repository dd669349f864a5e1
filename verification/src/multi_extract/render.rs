//! Printing terms, with names for the parts that they share.

use std::collections::HashMap;

use vstd::prelude::*;

use egglog::TermDag;

use crate::multi_extract::binding::{push_binding, PRETTY_INDENT_STEP};
use crate::multi_extract::dag::{children, dag_node, dag_nodes, ordered, Node, NodeView};
use crate::multi_extract::layout::{views, RenderedTerm};
use crate::multi_extract::naming::{
    among, definitions, has_name, law_definitions_grow, law_met, law_met_all, law_names, law_shown_stays, met, met_all,
    named_once, names, names_parts, reserved, shown, shown_all, spelled, FreshNames, Named,
};
use crate::multi_extract::text::literal_text;

verus! {

broadcast use vstd::std_specs::hash::group_hash_axioms;

/// How large a term must be to get a name.
pub const MIN_SHARED_TERM_SIZE: usize = 4;

/// The terms that are to have a name: those that are used more than once and
/// are not too small.
pub open spec fn shared_by(
    ref_counts: Map<usize, usize>,
    sizes: Map<usize, usize>,
) -> Set<usize> {
    Set::new(
        |id: usize|
            ref_counts.contains_key(id) && ref_counts[id] > 1 && sizes.contains_key(id) && sizes[id]
                >= MIN_SHARED_TERM_SIZE,
    )
}

/// What printing goes by: how often terms are used, how large they are, and the
/// names that were given so far, with the commands that define them.
pub struct RenderContext {
    fresh: FreshNames,
    ref_counts: HashMap<usize, usize>,
    sizes: HashMap<usize, usize>,
    bindings: HashMap<usize, String>,
    buf: String,
    named: Ghost<Seq<Named>>,
}

impl RenderContext {
    /// The terms that have a name.
    pub closed spec fn named(self) -> Seq<Named> {
        self.named@
    }

    /// How often terms are used.
    pub closed spec fn ref_counts(self) -> Map<usize, usize> {
        self.ref_counts@
    }

    /// How large terms are.
    pub closed spec fn sizes(self) -> Map<usize, usize> {
        self.sizes@
    }

    /// The terms that are to have a name.
    pub open spec fn shared(self) -> Set<usize> {
        shared_by(self.ref_counts(), self.sizes())
    }

    /// What the context can be at all, when terms of `nodes` are printed.
    pub closed spec fn wf(self, nodes: Seq<NodeView>) -> bool {
        &&& named_once(self.named@)
        &&& names_parts(nodes, self.shared(), self.named@)
        &&& forall|i: int| 0 <= i < self.named@.len() ==> (#[trigger] self.named@[i]).id < nodes.len()
        &&& self.fresh.prefix() == reserved()
        &&& self.fresh.made() == self.named@.len()
        &&& forall|id: usize| #[trigger]
            self.bindings@.contains_key(id) <==> names(nodes, self.named@).contains_key(id)
        &&& forall|id: usize| #[trigger]
            self.bindings@.contains_key(id) ==> self.bindings@[id]@ == names(nodes, self.named@)[id]
        &&& self.buf@ == definitions(nodes, self.named@)
    }

    /// A context in which no name was given yet.
    pub fn new(ref_counts: HashMap<usize, usize>, sizes: HashMap<usize, usize>) -> (ctx:
        RenderContext)
        ensures
            ctx.named() == Seq::<Named>::empty(),
            ctx.ref_counts() == ref_counts@,
            ctx.sizes() == sizes@,
            forall|nodes: Seq<NodeView>| #[trigger] ctx.wf(nodes),
    {
        RenderContext {
            fresh: FreshNames::new("__".to_owned()),
            ref_counts,
            sizes,
            bindings: HashMap::new(),
            buf: String::new(),
            named: Ghost(Seq::empty()),
        }
    }

    /// The commands that define the names.
    pub fn into_definitions(self) -> (definitions: String)
        ensures
            forall|nodes: Seq<NodeView>| #[trigger]
                self.wf(nodes) ==> definitions@ == self::definitions(nodes, self.named()),
    {
        self.buf
    }

    /// Whether a term is to have a name.
    fn is_shared(&self, term_id: usize) -> (is_shared: bool)
        ensures
            is_shared == self.shared().contains(term_id),
    {
        let term_size: usize = match self.sizes.get(&term_id) {
            Some(size) => *size,
            None => 1,
        };
        let repeat_count: usize = match self.ref_counts.get(&term_id) {
            Some(count) => *count,
            None => 1,
        };
        repeat_count > 1 && term_size >= MIN_SHARED_TERM_SIZE
    }
}

proof fn lemma_few_names(named: Seq<Named>, bound: nat)
    requires
        named_once(named),
        forall|i: int| 0 <= i < named.len() ==> (#[trigger] named[i]).id < bound,
    ensures
        named.len() <= bound,
    decreases bound,
{
    if bound == 0 {
        if named.len() > 0 {
            assert(named[0].id < bound);
        }
    } else {
        let last = bound - 1;
        if exists|i: int| 0 <= i < named.len() && (#[trigger] named[i]).id == last {
            let i = choose|i: int| 0 <= i < named.len() && (#[trigger] named[i]).id == last;
            let rest = named.remove(i);
            assert forall|j: int| 0 <= j < rest.len() implies (#[trigger] rest[j]).id < last by {
                if j < i {
                    assert(rest[j] == named[j]);
                } else {
                    assert(rest[j] == named[j + 1]);
                }
            }
            assert forall|j: int, k: int| 0 <= j < k < rest.len() implies (#[trigger] rest[j]).id
                != (#[trigger] rest[k]).id by {
                let j1 = if j < i {
                    j
                } else {
                    j + 1
                };
                let k1 = if k < i {
                    k
                } else {
                    k + 1
                };
                assert(rest[j] == named[j1] && rest[k] == named[k1]);
            }
            lemma_few_names(rest, last as nat);
        } else {
            lemma_few_names(named, last as nat);
        }
    }
}

/// Prints a term at column `indent`. With `allow_binding`, a term that is to
/// have a name gets it, and is printed by that name.
pub fn render_term(
    termdag: &TermDag,
    term_id: usize,
    ctx: &mut RenderContext,
    allow_binding: bool,
    indent: usize,
) -> (rendered: RenderedTerm)
    requires
        ordered(dag_nodes(*termdag)),
        term_id < dag_nodes(*termdag).len() < usize::MAX,
        indent + PRETTY_INDENT_STEP * (term_id + 1) <= usize::MAX,
        old(ctx).wf(dag_nodes(*termdag)),
    ensures
        final(ctx).wf(dag_nodes(*termdag)),
        final(ctx).ref_counts() == old(ctx).ref_counts(),
        final(ctx).sizes() == old(ctx).sizes(),
        old(ctx).named().is_prefix_of(final(ctx).named()),
        names(dag_nodes(*termdag), old(ctx).named()).submap_of(
            names(dag_nodes(*termdag), final(ctx).named()),
        ),
        definitions(dag_nodes(*termdag), old(ctx).named()).is_prefix_of(
            definitions(dag_nodes(*termdag), final(ctx).named()),
        ),
        ({
            let nodes = dag_nodes(*termdag);
            let after = names(nodes, final(ctx).named());
            if allow_binding || has_name(old(ctx).named(), term_id) {
                &&& final(ctx).named() == met(
                    nodes,
                    old(ctx).shared(),
                    term_id,
                    indent as nat,
                    old(ctx).named(),
                )
                &&& rendered@ == shown(nodes, after, term_id, indent as nat)
            } else {
                &&& final(ctx).named() == met_all(
                    nodes,
                    old(ctx).shared(),
                    children(nodes, term_id),
                    term_id,
                    indent as nat + PRETTY_INDENT_STEP as nat,
                    old(ctx).named(),
                )
                &&& rendered@ == spelled(nodes, after, term_id, indent as nat)
            }
        }),
    decreases term_id,
{
    let ghost nodes = dag_nodes(*termdag);
    let ghost named = ctx.named();
    let ghost shared = ctx.shared();
    let ghost ref_counts = ctx.ref_counts();
    let ghost sizes = ctx.sizes();
    proof {
        law_definitions_grow(nodes, named, named);
        law_names(nodes, named);
    }
    if let Some(existing) = ctx.bindings.get(&term_id) {
        return RenderedTerm::from_symbol(existing.clone());
    }
    let ghost deeper = indent as nat + PRETTY_INDENT_STEP as nat;
    let ghost inner = met_all(nodes, shared, children(nodes, term_id), term_id, deeper, named);
    let node: Node = dag_node(termdag, term_id);
    let rendered: RenderedTerm = match &node {
        Node::App(name, ids) => {
            let mut parts: Vec<RenderedTerm> = Vec::new();
            let mut k: usize = 0;
            while k < ids.len()
                invariant
                    nodes == dag_nodes(*termdag),
                    ordered(nodes),
                    term_id < nodes.len() < usize::MAX,
                    indent + PRETTY_INDENT_STEP * (term_id + 1) <= usize::MAX,
                    deeper == indent + PRETTY_INDENT_STEP,
                    ids@ == children(nodes, term_id),
                    k <= ids@.len(),
                    parts@.len() == k,
                    ctx.wf(nodes),
                    ctx.ref_counts() == ref_counts,
                    ctx.sizes() == sizes,
                    shared == shared_by(ref_counts, sizes),
                    named_once(named),
                    names_parts(nodes, shared, named),
                    ctx.named() == met_all(
                        nodes,
                        shared,
                        ids@.take(k as int),
                        term_id,
                        deeper,
                        named,
                    ),
                    forall|j: int|
                        0 <= j < k ==> (#[trigger] parts@[j])@ == shown(
                            nodes,
                            names(nodes, ctx.named()),
                            ids@[j],
                            deeper,
                        ),
                decreases ids@.len() - k,
            {
                let ghost before = ctx.named();
                let child: usize = ids[k];
                proof {
                    assert(children(nodes, term_id)[k as int] < term_id);
                }
                let part: RenderedTerm = render_term(
                    termdag,
                    child,
                    ctx,
                    true,
                    indent + PRETTY_INDENT_STEP,
                );
                proof {
                    assert(ids@.take(k + 1).drop_last() =~= ids@.take(k as int));
                    law_met_all(nodes, shared, ids@.take(k as int), term_id, deeper, named);
                    law_met(nodes, shared, child, deeper, before);
                    assert forall|j: int| 0 <= j < k implies (#[trigger] parts@[j])@ == shown(
                        nodes,
                        names(nodes, ctx.named()),
                        ids@[j],
                        deeper,
                    ) by {
                        let earlier = ids@[j];
                        assert(children(nodes, term_id)[j] < term_id);
                        assert(ids@.take(k as int)[j] == earlier);
                        assert(among(ids@.take(k as int), term_id).contains(earlier));
                        law_shown_stays(
                            nodes,
                            shared,
                            set![child],
                            before,
                            ctx.named(),
                            earlier,
                            deeper,
                        );
                    }
                }
                parts.push(part);
                k = k + 1;
            }
            proof {
                assert(ids@.take(k as int) =~= ids@);
                let expected = shown_all(
                    nodes,
                    names(nodes, ctx.named()),
                    children(nodes, term_id),
                    term_id,
                    deeper,
                );
                assert forall|j: int| 0 <= j < ids@.len() implies #[trigger] views(parts@)[j]
                    == expected[j] by {
                    assert(children(nodes, term_id)[j] < term_id);
                    assert(parts@[j]@ == shown(nodes, names(nodes, ctx.named()), ids@[j], deeper));
                }
                assert(views(parts@) =~= expected);
            }
            RenderedTerm::of_app(name.as_str(), &parts, indent)
        },
        Node::Lit(value) => RenderedTerm::from_symbol(literal_text(value)),
        Node::Var(name) => RenderedTerm::from_symbol(name.clone()),
    };
    proof {
        law_met_all(nodes, shared, children(nodes, term_id), term_id, deeper, named);
        law_met(nodes, shared, term_id, indent as nat, named);
        law_definitions_grow(nodes, named, inner);
        law_definitions_grow(
            nodes,
            named,
            met(nodes, shared, term_id, indent as nat, named),
        );
        law_names(nodes, inner);
        assert(ctx.named() == inner);
        assert(rendered@ == spelled(nodes, names(nodes, inner), term_id, indent as nat));
    }
    if allow_binding && ctx.is_shared(term_id) {
        let hint_text: &str = match &node {
            Node::App(name, _) => name.as_str(),
            _ => "t",
        };
        proof {
            lemma_few_names(inner, nodes.len());
        }
        let let_name: String = ctx.fresh.fresh(hint_text);
        push_binding(&mut ctx.buf, let_name.as_str(), rendered.pretty.as_str());
        ctx.bindings.insert(term_id, let_name.clone());
        proof {
            let last = Named { id: term_id, indent: indent as nat };
            let after = inner.push(last);
            ctx.named@ = after;
            assert(after.drop_last() =~= inner);
            assert(names(nodes, after) == names(nodes, inner).insert(term_id, let_name@));
        }
        RenderedTerm::from_symbol(let_name)
    } else {
        proof {
            if !shared.contains(term_id) && has_name(inner, term_id) {
                let i = choose|i: int| 0 <= i < inner.len() && (#[trigger] inner[i]).id == term_id;
                if i < named.len() {
                    assert(named[i] == inner[i]);
                }
            }
        }
        rendered
    }
}

} // verus!
