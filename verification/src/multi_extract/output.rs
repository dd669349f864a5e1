//! What multi-extraction prints.

use vstd::prelude::*;

use egglog::TermDag;

use crate::multi_extract::dag::{
    children, dag_node, dag_nodes, dag_size, edges_below, forest_size, law_used_are_parts,
    tree_size, uses, Node, NodeView,
};
use crate::multi_extract::naming::{
    among, definitions, law_met, law_met_all, law_shown_stays, met_all, names, shown, Named,
};
use crate::multi_extract::render::{render_term, shared_by, RenderContext, MIN_SHARED_TERM_SIZE};
use crate::multi_extract::stats::{collect_multi_term_stats, printable};

verus! {

/// The column at which the extracted terms stand.
pub const TERM_INDENT: usize = 6;

/// The terms of all groups, one after the other.
pub open spec fn flattened(groups: Seq<Seq<usize>>) -> Seq<usize>
    decreases groups.len(),
{
    if groups.len() == 0 {
        Seq::empty()
    } else {
        flattened(groups.drop_last()) + groups.last()
    }
}

/// The terms that get a name when `roots` are printed: those that are used more
/// than once and are not too small.
pub open spec fn shared(nodes: Seq<NodeView>, roots: Seq<usize>) -> Set<usize> {
    Set::new(
        |id: usize| uses(nodes, roots, id) > 1 && tree_size(nodes, id) >= MIN_SHARED_TERM_SIZE,
    )
}

/// The terms with a name, once `roots` were printed.
pub open spec fn named_for(nodes: Seq<NodeView>, roots: Seq<usize>) -> Seq<Named> {
    met_all(
        nodes,
        shared(nodes, roots),
        roots,
        nodes.len() as usize,
        TERM_INDENT as nat,
        Seq::empty(),
    )
}

/// The terms of a group, each from a line of its own on.
pub open spec fn group_lines(
    nodes: Seq<NodeView>,
    names: Map<usize, Seq<char>>,
    group: Seq<usize>,
) -> Seq<char>
    decreases group.len(),
{
    if group.len() == 0 {
        Seq::empty()
    } else {
        group_lines(nodes, names, group.drop_last()) + "      "@ + shown(
            nodes,
            names,
            group.last(),
            TERM_INDENT as nat,
        ).pretty + "\n"@
    }
}

/// The groups, each in brackets.
pub open spec fn group_texts(
    nodes: Seq<NodeView>,
    names: Map<usize, Seq<char>>,
    groups: Seq<Seq<usize>>,
) -> Seq<char>
    decreases groups.len(),
{
    if groups.len() == 0 {
        Seq::empty()
    } else {
        group_texts(nodes, names, groups.drop_last()) + "   (\n"@ + group_lines(
            nodes,
            names,
            groups.last(),
        ) + "   )\n"@
    }
}

/// What is printed for groups of terms: the commands that name the shared
/// parts, then the groups with those names.
pub open spec fn output(nodes: Seq<NodeView>, groups: Seq<Seq<usize>>) -> Seq<char> {
    let named = named_for(nodes, flattened(groups));
    definitions(nodes, named) + "(\n"@ + group_texts(nodes, names(nodes, named), groups) + ")\n"@
}

/// The lists of a list of lists.
pub open spec fn views(terms: Seq<Vec<usize>>) -> Seq<Seq<usize>> {
    terms.map_values(|group: Vec<usize>| group@)
}

/// The outcome of multi-extraction: for each expression, the terms that were
/// extracted for it.
#[derive(Debug)]
pub struct MultiExtractOutput {
    termdag: TermDag,
    terms: Vec<Vec<usize>>,
}

impl MultiExtractOutput {
    /// The terms to choose from.
    pub closed spec fn nodes(self) -> Seq<NodeView> {
        dag_nodes(self.termdag)
    }

    /// The terms that were extracted for each expression.
    pub closed spec fn groups(self) -> Seq<Seq<usize>> {
        views(self.terms@)
    }

    #[verifier::type_invariant]
    spec fn is_printable(self) -> bool {
        printable(dag_nodes(self.termdag), flattened(views(self.terms@)))
    }

    /// An outcome, unless its terms cannot be printed.
    pub fn new(termdag: TermDag, terms: Vec<Vec<usize>>) -> (output: Option<MultiExtractOutput>)
        ensures
            output is Some <==> printable(dag_nodes(termdag), flattened(views(terms@))),
            output matches Some(output) ==> output.nodes() == dag_nodes(termdag) && output.groups()
                == views(terms@),
            output matches Some(output) ==> output.groups().len() == terms@.len() && forall|g: int|
                0 <= g < terms@.len() ==> #[trigger] output.groups()[g] == terms@[g]@,
    {
        let all_term_ids: Vec<usize> = flatten(&terms);
        if check_printable(&termdag, all_term_ids.as_slice()) {
            Some(MultiExtractOutput { termdag, terms })
        } else {
            None
        }
    }

    /// What is printed.
    pub fn to_string(&self) -> (text: String)
        ensures
            text@ == output(self.nodes(), self.groups()),
    {
        proof {
            use_type_invariant(self);
        }
        let ghost nodes = self.nodes();
        let ghost groups = self.groups();
        let all_term_ids: Vec<usize> = flatten(&self.terms);
        let (definitions, rendered): (String, Vec<String>) = render_all(
            &self.termdag,
            all_term_ids.as_slice(),
        );
        let ghost named = named_for(nodes, flattened(groups));
        let ghost given = names(nodes, named);
        let mut text: String = definitions;
        text.append("(\n");
        let ghost head = text@;
        let mut next: usize = 0;
        let mut i: usize = 0;
        assert(head =~= head + group_texts(nodes, given, groups.take(0)));
        while i < self.terms.len()
            invariant
                groups == views(self.terms@),
                i <= self.terms@.len(),
                next == flattened(groups.take(i as int)).len(),
                rendered@.len() == flattened(groups).len(),
                forall|j: int|
                    0 <= j < rendered@.len() ==> (#[trigger] rendered@[j])@ == shown(
                        nodes,
                        given,
                        flattened(groups)[j],
                        TERM_INDENT as nat,
                    ).pretty,
                text@ == head + group_texts(nodes, given, groups.take(i as int)),
            decreases self.terms@.len() - i,
        {
            let ghost before = flattened(groups.take(i as int));
            let ghost group = groups[i as int];
            proof {
                assert(groups.take(i + 1).drop_last() =~= groups.take(i as int));
                lemma_flattened_so_far(groups, i + 1);
            }
            text.append("   (\n");
            let ghost opened = text@;
            let mut k: usize = 0;
            assert(opened =~= opened + group_lines(nodes, given, group.take(0)));
            while k < self.terms[i].len()
                invariant
                    groups == views(self.terms@),
                    i < self.terms@.len(),
                    group == self.terms@[i as int]@,
                    k <= group.len(),
                    next == before.len() + k,
                    flattened(groups.take(i + 1)) == before + group,
                    flattened(groups.take(i + 1)).is_prefix_of(flattened(groups)),
                    rendered@.len() == flattened(groups).len(),
                    forall|j: int|
                        0 <= j < rendered@.len() ==> (#[trigger] rendered@[j])@ == shown(
                            nodes,
                            given,
                            flattened(groups)[j],
                            TERM_INDENT as nat,
                        ).pretty,
                    text@ == opened + group_lines(nodes, given, group.take(k as int)),
                decreases group.len() - k,
            {
                proof {
                    assert((before + group)[next as int] == group[k as int]);
                    assert(flattened(groups)[next as int] == group[k as int]);
                    assert(next < rendered.len());
                    assert(group.take(k + 1).drop_last() =~= group.take(k as int));
                }
                text.append("      ");
                text.append(rendered[next].as_str());
                text.append("\n");
                next = next + 1;
                k = k + 1;
                assert(text@ =~= opened + group_lines(nodes, given, group.take(k as int)));
            }
            assert(group.take(k as int) =~= group);
            text.append("   )\n");
            i = i + 1;
            assert(text@ =~= head + group_texts(nodes, given, groups.take(i as int)));
        }
        assert(groups.take(i as int) =~= groups);
        text.append(")\n");
        text
    }
}

proof fn lemma_flattened_so_far(groups: Seq<Seq<usize>>, i: int)
    requires
        0 <= i <= groups.len(),
    ensures
        flattened(groups.take(i)).is_prefix_of(flattened(groups)),
    decreases groups.len() - i,
{
    if i < groups.len() {
        assert(groups.take(i + 1).drop_last() =~= groups.take(i));
        lemma_flattened_so_far(groups, i + 1);
        let some = flattened(groups.take(i));
        let more = flattened(groups.take(i + 1));
        assert(some =~= more.take(some.len() as int));
        assert(more =~= flattened(groups).take(more.len() as int));
        assert(some =~= flattened(groups).take(some.len() as int));
    } else {
        assert(groups.take(i) =~= groups);
        assert(flattened(groups) =~= flattened(groups).take(flattened(groups).len() as int));
    }
}

/// The terms of all groups, one after the other.
pub fn flatten(terms: &Vec<Vec<usize>>) -> (all: Vec<usize>)
    ensures
        all@ == flattened(views(terms@)),
{
    let ghost groups = views(terms@);
    let mut all: Vec<usize> = Vec::new();
    let mut i: usize = 0;
    while i < terms.len()
        invariant
            groups == views(terms@),
            i <= terms@.len(),
            all@ == flattened(groups.take(i as int)),
        decreases terms@.len() - i,
    {
        assert(groups.take(i + 1).drop_last() =~= groups.take(i as int));
        all.extend_from_slice(terms[i].as_slice());
        i = i + 1;
        assert(all@ =~= flattened(groups.take(i as int)));
    }
    assert(groups.take(i as int) =~= groups);
    all
}

/// Prints terms. Returns the commands that name their shared parts, and each
/// term with those names.
fn render_all(termdag: &TermDag, all_term_ids: &[usize]) -> (texts: (String, Vec<String>))
    requires
        printable(dag_nodes(*termdag), all_term_ids@),
    ensures
        ({
            let nodes = dag_nodes(*termdag);
            let named = named_for(nodes, all_term_ids@);
            &&& texts.0@ == definitions(nodes, named)
            &&& texts.1@.len() == all_term_ids@.len()
            &&& forall|j: int|
                0 <= j < texts.1@.len() ==> (#[trigger] texts.1@[j])@ == shown(
                    nodes,
                    names(nodes, named),
                    all_term_ids@[j],
                    TERM_INDENT as nat,
                ).pretty
        }),
{
    let ghost nodes = dag_nodes(*termdag);
    let ghost roots = all_term_ids@;
    let ghost common = shared(nodes, roots);
    let ghost bound = nodes.len() as usize;
    let ghost indent = TERM_INDENT as nat;
    let (ref_counts, sizes) = collect_multi_term_stats(termdag, all_term_ids);
    proof {
        assert forall|id: usize| #[trigger] common.contains(id) <==> shared_by(
            ref_counts@,
            sizes@,
        ).contains(id) by {
            law_used_are_parts(nodes, roots, id);
        }
        assert(common =~= shared_by(ref_counts@, sizes@));
    }
    let mut ctx: RenderContext = RenderContext::new(ref_counts, sizes);
    let mut texts: Vec<String> = Vec::new();
    let mut k: usize = 0;
    assert(ctx.wf(nodes));
    while k < all_term_ids.len()
        invariant
            nodes == dag_nodes(*termdag),
            roots == all_term_ids@,
            printable(nodes, roots),
            bound == nodes.len(),
            indent == TERM_INDENT,
            k <= roots.len(),
            texts@.len() == k,
            ctx.wf(nodes),
            ctx.shared() == common,
            ctx.named() == met_all(
                nodes,
                common,
                roots.take(k as int),
                bound,
                indent,
                Seq::empty(),
            ),
            forall|j: int|
                0 <= j < k ==> (#[trigger] texts@[j])@ == shown(
                    nodes,
                    names(nodes, ctx.named()),
                    roots[j],
                    indent,
                ).pretty,
        decreases roots.len() - k,
    {
        let ghost before = ctx.named();
        let root: usize = all_term_ids[k];
        let rendered = render_term(termdag, root, &mut ctx, true, TERM_INDENT);
        proof {
            assert(roots.take(k + 1).drop_last() =~= roots.take(k as int));
            law_met_all(nodes, common, roots.take(k as int), bound, indent, Seq::empty());
            law_met(nodes, common, root, indent, before);
            assert forall|j: int| 0 <= j < k implies (#[trigger] texts@[j])@ == shown(
                nodes,
                names(nodes, ctx.named()),
                roots[j],
                indent,
            ).pretty by {
                assert(roots.take(k as int)[j] == roots[j]);
                assert(among(roots.take(k as int), bound).contains(roots[j]));
                law_shown_stays(nodes, common, set![root], before, ctx.named(), roots[j], indent);
            }
        }
        texts.push(rendered.pretty);
        k = k + 1;
    }
    assert(roots.take(k as int) =~= roots);
    (ctx.into_definitions(), texts)
}

/// Whether terms can be printed.
pub fn check_printable(termdag: &TermDag, roots: &[usize]) -> (valid: bool)
    ensures
        valid == printable(dag_nodes(*termdag), roots@),
{
    let ghost nodes = dag_nodes(*termdag);
    let n: usize = dag_size(termdag);
    if n > (usize::MAX - 8) / 2 {
        return false;
    }
    let mut total: usize = 0;
    let mut sizes: Vec<Option<usize>> = Vec::new();
    let mut id: usize = 0;
    while id < n
        invariant
            nodes == dag_nodes(*termdag),
            n == nodes.len(),
            2 * n + 8 <= usize::MAX,
            id <= n,
            total == edges_below(nodes, id as nat),
            sizes@.len() == id,
            forall|i: usize, k: int|
                i < id && 0 <= k < children(nodes, i).len() ==> #[trigger] children(nodes, i)[k]
                    < i,
            forall|i: usize|
                i < id ==> match #[trigger] sizes@[i as int] {
                    Some(size) => size == tree_size(nodes, i),
                    None => tree_size(nodes, i) > usize::MAX,
                },
        decreases n - id,
    {
        let mut size: Option<usize> = Some(1);
        match dag_node(termdag, id) {
            Node::App(_, ids) => {
                let mut k: usize = 0;
                while k < ids.len()
                    invariant
                        nodes == dag_nodes(*termdag),
                        n == nodes.len(),
                        id < n,
                        ids@ == children(nodes, id),
                        k <= ids@.len(),
                        sizes@.len() == id,
                        forall|i: usize|
                            i < id ==> match #[trigger] sizes@[i as int] {
                                Some(size) => size == tree_size(nodes, i),
                                None => tree_size(nodes, i) > usize::MAX,
                            },
                        forall|j: int| 0 <= j < k ==> #[trigger] children(nodes, id)[j] < id,
                        match size {
                            Some(size) => size == 1 + forest_size(nodes, ids@.take(k as int), id),
                            None => 1 + forest_size(nodes, ids@.take(k as int), id) > usize::MAX,
                        },
                    decreases ids@.len() - k,
                {
                    let child: usize = ids[k];
                    if child >= id {
                        assert(children(nodes, id)[k as int] >= id);
                        return false;
                    }
                    proof {
                        assert(ids@.take(k + 1).drop_last() =~= ids@.take(k as int));
                        assert(tree_size(nodes, child) >= 1);
                    }
                    size = match (size, sizes[child]) {
                        (Some(size), Some(more)) => size.checked_add(more),
                        _ => None,
                    };
                    k = k + 1;
                }
                assert(ids@.take(k as int) =~= ids@);
                if ids.len() > usize::MAX - total {
                    proof {
                        lemma_edges(nodes, (id + 1) as nat, n as nat);
                    }
                    return false;
                }
                total = total + ids.len();
            },
            _ => {},
        }
        sizes.push(size);
        id = id + 1;
    }
    if roots.len() > usize::MAX - total {
        return false;
    }
    let mut r: usize = 0;
    while r < roots.len()
        invariant
            r <= roots@.len(),
            nodes == dag_nodes(*termdag),
            n == nodes.len(),
            sizes@.len() == n,
            forall|i: usize|
                i < n ==> match #[trigger] sizes@[i as int] {
                    Some(size) => size == tree_size(nodes, i),
                    None => tree_size(nodes, i) > usize::MAX,
                },
            forall|k: int|
                0 <= k < r ==> #[trigger] roots@[k] < nodes.len() && tree_size(nodes, roots@[k])
                    <= usize::MAX,
        decreases roots@.len() - r,
    {
        let root: usize = roots[r];
        if root >= n || sizes[root].is_none() {
            assert(!(roots@[r as int] < nodes.len() && tree_size(nodes, roots@[r as int])
                <= usize::MAX));
            return false;
        }
        r = r + 1;
    }
    true
}

proof fn lemma_edges(nodes: Seq<NodeView>, some: nat, more: nat)
    requires
        some <= more,
    ensures
        edges_below(nodes, some) <= edges_below(nodes, more),
    decreases more - some,
{
    if some < more {
        lemma_edges(nodes, some, (more - 1) as nat);
    }
}

} // verus!
