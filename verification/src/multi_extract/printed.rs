//! What is printed, told by what it is made of.

use vstd::prelude::*;

use crate::multi_extract::binding::binding;
use crate::multi_extract::dag::{
    all_parts, children, edges, edges_below, forest_size, law_parts_are_smaller,
    law_parts_of_parts, occurrences, ordered, parts, reaches,
    references, references_below, tree_size, uses, NodeView,
};
use crate::multi_extract::layout::{print_app, Printed};
use crate::multi_extract::naming::{
    definitions, fresh_name, has_name, hint, law_names, met, met_all, named_once, names, shown, shown_all,
    spelled, Named,
};
use crate::multi_extract::output::{
    flattened, group_lines, group_texts, named_for, output, shared, views,
};
use crate::multi_extract::pieces::lemma_flatten_last;
use crate::multi_extract::render::shared_by;
use crate::multi_extract::stats::{count_of, printable};
use crate::multi_extract::text::{decimal, literal};

verus! {

/// How often a term occurs in a list.
pub proof fn law_occurrences(ids: Seq<usize>, id: usize)
    ensures
        occurrences(ids, id) == ids.to_multiset().count(id),
    decreases ids.len(),
{
    ids.to_multiset_ensures();
    if ids.len() > 0 {
        let front = ids.drop_last();
        law_occurrences(front, id);
        front.to_multiset_ensures();
        assert(front.push(ids.last()) =~= ids);
    } else {
        assert(ids =~= Seq::empty());
        if ids.to_multiset().count(id) > 0 {
            assert(ids.contains(id));
        }
    }
}

/// A term's children: the arguments of its constructor.
pub proof fn law_children(nodes: Seq<NodeView>, id: usize)
    ensures
        match nodes[id as int] {
            NodeView::App(_, ids) => children(nodes, id) == ids,
            _ => children(nodes, id).len() == 0,
        },
{
}

/// A term written out as a tree has one node more than its children together,
/// each counted as often as it is one.
pub proof fn law_tree_size(nodes: Seq<NodeView>, id: usize)
    requires
        ordered(nodes),
        id < nodes.len(),
    ensures
        tree_size(nodes, id) == 1 + children(nodes, id).fold_left(
            0int,
            |size: int, child: usize| size + tree_size(nodes, child),
        ),
{
    let ids = children(nodes, id);
    assert forall|k: int| 0 <= k < ids.len() implies #[trigger] ids[k] < id by {
        assert(children(nodes, id)[k] < id);
    }
    lemma_forest_size(nodes, ids, id);
}

proof fn lemma_forest_size(nodes: Seq<NodeView>, ids: Seq<usize>, bound: usize)
    requires
        forall|k: int| 0 <= k < ids.len() ==> #[trigger] ids[k] < bound,
    ensures
        forest_size(nodes, ids, bound) == ids.fold_left(
            0int,
            |size: int, child: usize| size + tree_size(nodes, child),
        ),
    decreases ids.len(),
{
    if ids.len() > 0 {
        lemma_forest_size(nodes, ids.drop_last(), bound);
    }
}

/// How often a term is a child of others: each of them counts as often as the
/// term is its child, and counts once.
pub proof fn law_references(nodes: Seq<NodeView>, from: Set<usize>, id: usize)
    requires
        nodes.len() <= usize::MAX,
    ensures
        references(nodes, from, id) == Seq::new(nodes.len(), |parent: int| parent as usize).fold_left(
            0int,
            |count: int, parent: usize|
                count + if from.contains(parent) {
                    children(nodes, parent).to_multiset().count(id)
                } else {
                    0
                },
        ),
{
    lemma_references(nodes, from, id, nodes.len());
}

proof fn lemma_references(nodes: Seq<NodeView>, from: Set<usize>, id: usize, bound: nat)
    requires
        bound <= nodes.len() <= usize::MAX,
    ensures
        references_below(nodes, from, id, bound) == Seq::new(
            bound,
            |parent: int| parent as usize,
        ).fold_left(
            0int,
            |count: int, parent: usize|
                count + if from.contains(parent) {
                    children(nodes, parent).to_multiset().count(id)
                } else {
                    0
                },
        ),
    decreases bound,
{
    if bound > 0 {
        let less = (bound - 1) as nat;
        lemma_references(nodes, from, id, less);
        law_occurrences(children(nodes, less as usize), id);
        assert(Seq::new(bound, |parent: int| parent as usize).drop_last() =~= Seq::new(
            less,
            |parent: int| parent as usize,
        ));
    }
}

/// The parts of terms: the terms themselves, and with each part its children.
/// No smaller set of terms has these.
pub proof fn law_all_parts(nodes: Seq<NodeView>, ids: Seq<usize>, other: Set<usize>)
    requires
        ordered(nodes),
        forall|k: int| 0 <= k < ids.len() ==> #[trigger] ids[k] < nodes.len(),
    ensures
        forall|k: int| 0 <= k < ids.len() ==> all_parts(nodes, ids).contains(#[trigger] ids[k]),
        forall|id: usize, k: int|
            all_parts(nodes, ids).contains(id) && 0 <= k < children(nodes, id).len()
                ==> all_parts(nodes, ids).contains(#[trigger] children(nodes, id)[k]),
        (forall|k: int| 0 <= k < ids.len() ==> other.contains(#[trigger] ids[k])) && (forall|
            id: usize,
            k: int,
        |
            other.contains(id) && 0 <= k < children(nodes, id).len() ==> other.contains(
                #[trigger] children(nodes, id)[k],
            )) ==> all_parts(nodes, ids).subset_of(other),
{
    let all = all_parts(nodes, ids);
    assert forall|k: int| 0 <= k < ids.len() implies all.contains(#[trigger] ids[k]) by {
        assert(reaches(nodes, ids[k], ids[k]));
    }
    assert forall|id: usize, k: int|
        all.contains(id) && 0 <= k < children(nodes, id).len() implies all.contains(
        #[trigger] children(nodes, id)[k],
    ) by {
        let child = children(nodes, id)[k];
        let top = choose|j: int| 0 <= j < ids.len() && reaches(nodes, #[trigger] ids[j], id);
        law_parts_are_smaller(nodes, ids[top], id);
        assert(child < id);
        assert(reaches(nodes, child, child));
        assert(reaches(nodes, id, child));
        law_parts_of_parts(nodes, ids[top], id, child);
    }
    if (forall|k: int| 0 <= k < ids.len() ==> other.contains(#[trigger] ids[k])) && (forall|
        id: usize,
        k: int,
    |
        other.contains(id) && 0 <= k < children(nodes, id).len() ==> other.contains(
            #[trigger] children(nodes, id)[k],
        )) {
        assert forall|part: usize| all.contains(part) implies other.contains(part) by {
            let top = choose|j: int| 0 <= j < ids.len() && reaches(nodes, #[trigger] ids[j], part);
            lemma_parts_stay_within(nodes, ids[top], part, other);
        }
    }
}

proof fn lemma_parts_stay_within(
    nodes: Seq<NodeView>,
    from: usize,
    part: usize,
    other: Set<usize>,
)
    requires
        reaches(nodes, from, part),
        other.contains(from),
        forall|id: usize, k: int|
            other.contains(id) && 0 <= k < children(nodes, id).len() ==> other.contains(
                #[trigger] children(nodes, id)[k],
            ),
    ensures
        other.contains(part),
    decreases from,
{
    if from != part {
        let k = choose|k: int|
            0 <= k < children(nodes, from).len() && #[trigger] children(nodes, from)[k] < from
                && reaches(nodes, children(nodes, from)[k], part);
        lemma_parts_stay_within(nodes, children(nodes, from)[k], part, other);
    }
}

/// The parts of one term are those of a list with this term alone.
pub proof fn law_parts_of_one(nodes: Seq<NodeView>, id: usize)
    ensures
        parts(nodes, id) == all_parts(nodes, seq![id]),
{
    assert forall|part: usize| parts(nodes, id).contains(part) <==> all_parts(
        nodes,
        seq![id],
    ).contains(part) by {
        if reaches(nodes, id, part) {
            assert(seq![id][0] == id);
        }
    }
}

/// Which terms get a name: those of four nodes or more that are used more than
/// once, in the list or as a child of a part of one in the list.
pub proof fn law_shared(nodes: Seq<NodeView>, roots: Seq<usize>, id: usize)
    ensures
        shared(nodes, roots).contains(id) <==> roots.to_multiset().count(id) + references(
            nodes,
            all_parts(nodes, roots),
            id,
        ) >= 2 && tree_size(nodes, id) >= 4,
        uses(nodes, roots, id) == roots.to_multiset().count(id) + references(
            nodes,
            all_parts(nodes, roots),
            id,
        ),
{
    law_occurrences(roots, id);
}

/// Which terms get a name, by counts of their uses and sizes.
pub proof fn law_shared_by(ref_counts: Map<usize, usize>, sizes: Map<usize, usize>, id: usize)
    ensures
        shared_by(ref_counts, sizes).contains(id) <==> ref_counts.contains_key(id)
            && sizes.contains_key(id) && ref_counts[id] >= 2 && sizes[id] >= 4,
{
}

/// What was not counted has a count of zero.
pub proof fn law_count_of(counts: Map<usize, usize>, id: usize)
    ensures
        counts.contains_key(id) ==> count_of(counts, id) == counts[id],
        !counts.contains_key(id) ==> count_of(counts, id) == 0,
{
}

/// How many children terms have together.
pub proof fn law_edges(nodes: Seq<NodeView>)
    requires
        nodes.len() <= usize::MAX,
    ensures
        edges(nodes) == Seq::new(nodes.len(), |id: int| id as usize).fold_left(
            0int,
            |count: int, id: usize| count + children(nodes, id).len(),
        ),
{
    lemma_edges(nodes, nodes.len());
}

proof fn lemma_edges(nodes: Seq<NodeView>, bound: nat)
    requires
        bound <= nodes.len() <= usize::MAX,
    ensures
        edges_below(nodes, bound) == Seq::new(bound, |id: int| id as usize).fold_left(
            0int,
            |count: int, id: usize| count + children(nodes, id).len(),
        ),
    decreases bound,
{
    if bound > 0 {
        let less = (bound - 1) as nat;
        lemma_edges(nodes, less);
        assert(Seq::new(bound, |id: int| id as usize).drop_last() =~= Seq::new(
            less,
            |id: int| id as usize,
        ));
    }
}

/// Terms that can be printed have children with smaller numbers, are at hand,
/// and have no more nodes, uses and columns than can be counted. All such terms
/// can be printed.
pub proof fn law_printable(nodes: Seq<NodeView>, roots: Seq<usize>)
    ensures
        printable(nodes, roots) <==> (forall|id: usize, k: int|
            id < nodes.len() && 0 <= k < children(nodes, id).len() ==> #[trigger] children(
                nodes,
                id,
            )[k] < id) && (forall|k: int|
            0 <= k < roots.len() ==> #[trigger] roots[k] < nodes.len() && tree_size(nodes, roots[k])
                <= usize::MAX) && 2 * nodes.len() + 8 <= usize::MAX && edges(nodes) + roots.len()
            <= usize::MAX,
{
}

/// The names that are made up: two low lines, the constructor, or `t` where
/// there is none, and the number of names before.
pub proof fn law_made_up_names(nodes: Seq<NodeView>, named: Seq<Named>, i: int)
    requires
        named_once(named),
        0 <= i < named.len(),
    ensures
        names(nodes, named).contains_key(named[i].id),
        names(nodes, named)[named[i].id] == seq!['_', '_'] + (match nodes[named[i].id as int] {
            NodeView::App(name, _) => name,
            NodeView::Lit(_) => seq!['t'],
            NodeView::Var(_) => seq!['t'],
        }) + decimal(i as nat),
        forall|id: usize| #[trigger]
            names(nodes, named).contains_key(id) <==> exists|j: int|
                0 <= j < named.len() && (#[trigger] named[j]).id == id,
{
    reveal_strlit("__");
    reveal_strlit("t");
    assert("__"@ =~= seq!['_', '_']);
    assert("t"@ =~= seq!['t']);
    law_names(nodes, named);
    assert(has_name(named, named[i].id));
}

/// The commands that define names: one for each, in order. What it names is
/// spelled out with the names before it.
pub proof fn law_definitions(nodes: Seq<NodeView>, named: Seq<Named>)
    ensures
        definitions(nodes, named) == Seq::new(
            named.len(),
            |i: int|
                binding(
                    fresh_name(hint(nodes[named[i].id as int]), i as nat),
                    spelled(
                        nodes,
                        names(nodes, named.take(i)),
                        named[i].id,
                        named[i].indent,
                    ).pretty,
                ),
        ).flatten(),
    decreases named.len(),
{
    let texts = Seq::new(
        named.len(),
        |i: int|
            binding(
                fresh_name(hint(nodes[named[i].id as int]), i as nat),
                spelled(nodes, names(nodes, named.take(i)), named[i].id, named[i].indent).pretty,
            ),
    );
    if named.len() > 0 {
        let before = named.drop_last();
        law_definitions(nodes, before);
        lemma_flatten_last(texts);
        assert forall|i: int| 0 <= i < before.len() implies before.take(i) == named.take(i) by {
            assert(before.take(i) =~= named.take(i));
        }
        assert(texts.drop_last() =~= Seq::new(
            before.len(),
            |i: int|
                binding(
                    fresh_name(hint(nodes[before[i].id as int]), i as nat),
                    spelled(
                        nodes,
                        names(nodes, before.take(i)),
                        before[i].id,
                        before[i].indent,
                    ).pretty,
                ),
        ));
        assert(named.take(named.len() - 1) =~= before);
    } else {
        assert(texts =~= Seq::empty());
    }
}

/// How a term is printed: by its name where it has one; else a literal or a
/// variable as its text, and a constructor with all its children in order, two
/// columns further in.
pub proof fn law_shown(
    nodes: Seq<NodeView>,
    names: Map<usize, Seq<char>>,
    id: usize,
    indent: nat,
)
    requires
        ordered(nodes),
        id < nodes.len(),
    ensures
        names.contains_key(id) ==> shown(nodes, names, id, indent) == (Printed {
            inline: names[id],
            pretty: names[id],
        }),
        !names.contains_key(id) ==> shown(nodes, names, id, indent) == spelled(
            nodes,
            names,
            id,
            indent,
        ),
        spelled(nodes, names, id, indent) == match nodes[id as int] {
            NodeView::App(name, ids) => print_app(
                name,
                ids.map_values(|child: usize| shown(nodes, names, child, indent + 2nat)),
                indent,
            ),
            NodeView::Lit(value) => (Printed { inline: literal(value), pretty: literal(value) }),
            NodeView::Var(name) => (Printed { inline: name, pretty: name }),
        },
{
    if let NodeView::App(name, ids) = nodes[id as int] {
        assert forall|k: int| 0 <= k < ids.len() implies #[trigger] ids[k] < id by {
            assert(children(nodes, id)[k] < id);
        }
        assert(shown_all(nodes, names, ids, id, indent + 2nat) =~= ids.map_values(
            |child: usize| shown(nodes, names, child, indent + 2nat),
        ));
    }
}

/// When terms get their names: a term that is met and has none yet first has its
/// children met, in order and two columns further in, and then gets its own, if
/// it is one of those that are to have one.
pub proof fn law_meeting(
    nodes: Seq<NodeView>,
    wanted: Set<usize>,
    id: usize,
    indent: nat,
    named: Seq<Named>,
)
    requires
        ordered(nodes),
        id < nodes.len(),
    ensures
        ({
            let known = exists|i: int| 0 <= i < named.len() && (#[trigger] named[i]).id == id;
            let inner = children(nodes, id).fold_left(
                named,
                |so_far: Seq<Named>, child: usize| met(nodes, wanted, child, indent + 2nat, so_far),
            );
            let after = met(nodes, wanted, id, indent, named);
            &&& known ==> after == named
            &&& !known && !wanted.contains(id) ==> after == inner
            &&& !known && wanted.contains(id) ==> after == inner + seq![Named { id, indent }]
        }),
{
    let ids = children(nodes, id);
    assert forall|k: int| 0 <= k < ids.len() implies #[trigger] ids[k] < id by {
        assert(children(nodes, id)[k] < id);
    }
    lemma_met_all(nodes, wanted, ids, id, indent + 2nat, named);
    let inner = met_all(nodes, wanted, ids, id, indent + 2nat, named);
    assert(inner.push(Named { id, indent }) =~= inner + seq![Named { id, indent }]);
}

proof fn lemma_met_all(
    nodes: Seq<NodeView>,
    wanted: Set<usize>,
    ids: Seq<usize>,
    bound: usize,
    indent: nat,
    named: Seq<Named>,
)
    requires
        forall|k: int| 0 <= k < ids.len() ==> #[trigger] ids[k] < bound,
    ensures
        met_all(nodes, wanted, ids, bound, indent, named) == ids.fold_left(
            named,
            |so_far: Seq<Named>, child: usize| met(nodes, wanted, child, indent, so_far),
        ),
    decreases ids.len(),
{
    if ids.len() > 0 {
        lemma_met_all(nodes, wanted, ids.drop_last(), bound, indent, named);
    }
}

/// The terms with a name when a list was printed: those that got one as the
/// terms of the list were met, in order and at column six.
pub proof fn law_named_for(nodes: Seq<NodeView>, roots: Seq<usize>)
    requires
        printable(nodes, roots),
    ensures
        named_for(nodes, roots) == roots.fold_left(
            Seq::<Named>::empty(),
            |so_far: Seq<Named>, id: usize| met(nodes, shared(nodes, roots), id, 6, so_far),
        ),
{
    lemma_met_all(nodes, shared(nodes, roots), roots, nodes.len() as usize, 6, Seq::empty());
}

/// The terms of all groups, one after the other.
pub proof fn law_flattened(groups: Seq<Seq<usize>>)
    ensures
        flattened(groups) == groups.flatten(),
    decreases groups.len(),
{
    if groups.len() > 0 {
        law_flattened(groups.drop_last());
        groups.lemma_flatten_and_flatten_alt_are_equivalent();
        groups.drop_last().lemma_flatten_and_flatten_alt_are_equivalent();
    } else {
        assert(groups.flatten() =~= Seq::empty());
    }
}

proof fn lemma_group_lines(nodes: Seq<NodeView>, names: Map<usize, Seq<char>>, group: Seq<usize>)
    ensures
        group_lines(nodes, names, group) == group.map_values(
            |id: usize|
                seq![' ', ' ', ' ', ' ', ' ', ' '] + shown(nodes, names, id, 6).pretty + seq!['\n'],
        ).flatten(),
    decreases group.len(),
{
    let f = |id: usize|
        seq![' ', ' ', ' ', ' ', ' ', ' '] + shown(nodes, names, id, 6).pretty + seq!['\n'];
    let texts = group.map_values(f);
    reveal_strlit("      ");
    reveal_strlit("\n");
    assert("      "@ =~= seq![' ', ' ', ' ', ' ', ' ', ' ']);
    assert("\n"@ =~= seq!['\n']);
    if group.len() > 0 {
        lemma_group_lines(nodes, names, group.drop_last());
        assert(texts.drop_last() =~= group.drop_last().map_values(f));
        lemma_flatten_last(texts);
        assert(group_lines(nodes, names, group) =~= group_lines(nodes, names, group.drop_last())
            + f(group.last()));
    } else {
        assert(texts =~= Seq::empty());
    }
}

proof fn lemma_group_texts(
    nodes: Seq<NodeView>,
    names: Map<usize, Seq<char>>,
    groups: Seq<Seq<usize>>,
)
    ensures
        group_texts(nodes, names, groups) == groups.map_values(
            |group: Seq<usize>|
                seq![' ', ' ', ' ', '(', '\n'] + group.map_values(
                    |id: usize|
                        seq![' ', ' ', ' ', ' ', ' ', ' '] + shown(nodes, names, id, 6).pretty + seq![
                            '\n',
                        ],
                ).flatten() + seq![' ', ' ', ' ', ')', '\n'],
        ).flatten(),
    decreases groups.len(),
{
    let f = |group: Seq<usize>|
        seq![' ', ' ', ' ', '(', '\n'] + group.map_values(
            |id: usize|
                seq![' ', ' ', ' ', ' ', ' ', ' '] + shown(nodes, names, id, 6).pretty + seq!['\n'],
        ).flatten() + seq![' ', ' ', ' ', ')', '\n'];
    let texts = groups.map_values(f);
    reveal_strlit("   (\n");
    reveal_strlit("   )\n");
    assert("   (\n"@ =~= seq![' ', ' ', ' ', '(', '\n']);
    assert("   )\n"@ =~= seq![' ', ' ', ' ', ')', '\n']);
    if groups.len() > 0 {
        lemma_group_texts(nodes, names, groups.drop_last());
        lemma_group_lines(nodes, names, groups.last());
        assert(texts.drop_last() =~= groups.drop_last().map_values(f));
        lemma_flatten_last(texts);
        assert(group_texts(nodes, names, groups) =~= group_texts(nodes, names, groups.drop_last())
            + f(groups.last()));
    } else {
        assert(texts =~= Seq::empty());
    }
}

/// What is printed for groups of terms: the definitions, then in brackets each
/// group in order, in brackets of its own. A group has as many entries as terms,
/// and each is what is shown for its term, six columns in and with a line break
/// behind it.
pub proof fn law_printed_groups(nodes: Seq<NodeView>, groups: Seq<Seq<usize>>)
    ensures
        ({
            let named = named_for(nodes, groups.flatten());
            output(nodes, groups) == definitions(nodes, named) + seq!['(', '\n']
                + groups.map_values(
                |group: Seq<usize>|
                    seq![' ', ' ', ' ', '(', '\n'] + group.map_values(
                        |id: usize|
                            seq![' ', ' ', ' ', ' ', ' ', ' '] + shown(
                                nodes,
                                names(nodes, named),
                                id,
                                6,
                            ).pretty + seq!['\n'],
                    ).flatten() + seq![' ', ' ', ' ', ')', '\n'],
            ).flatten() + seq![')', '\n']
        }),
{
    law_flattened(groups);
    let named = named_for(nodes, groups.flatten());
    lemma_group_texts(nodes, names(nodes, named), groups);
    reveal_strlit("(\n");
    reveal_strlit(")\n");
    assert("(\n"@ =~= seq!['(', '\n']);
    assert(")\n"@ =~= seq![')', '\n']);
}

/// The groups of an outcome: one for each list, with its terms.
pub proof fn law_views(terms: Seq<Vec<usize>>)
    ensures
        views(terms).len() == terms.len(),
        forall|g: int| 0 <= g < terms.len() ==> #[trigger] views(terms)[g] == terms[g]@,
{
}

} // verus!
