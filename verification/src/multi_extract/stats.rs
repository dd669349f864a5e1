//! How often terms are used, and how large they are.

use std::collections::{HashMap, HashSet};

use vstd::prelude::*;

use egglog::TermDag;

use crate::multi_extract::dag::{
    all_parts, children, dag_node, dag_nodes, edges, edges_below, forest_size,
    law_parts_are_smaller, law_parts_of_parts, law_used_are_parts,
    occurrences, ordered, parts, reaches, references,
    references_below, tree_size, uses, Node, NodeView,
};

verus! {

broadcast use vstd::std_specs::hash::group_hash_axioms;

/// A count; what was not counted counts as zero.
pub open spec fn count_of(counts: Map<usize, usize>, id: usize) -> nat {
    if counts.contains_key(id) {
        counts[id] as nat
    } else {
        0
    }
}

/// Whether nothing has a count of zero.
pub open spec fn all_counted(counts: Map<usize, usize>) -> bool {
    forall|id: usize| #[trigger] counts.contains_key(id) ==> counts[id] > 0
}

/// Whether nodes with numbers up to `bound` that were visited have only children
/// that were visited.
pub open spec fn closed_up_to(nodes: Seq<NodeView>, visited: Set<usize>, bound: usize) -> bool {
    forall|id: usize, k: int|
        #![trigger visited.contains(id), children(nodes, id)[k]]
        visited.contains(id) && id <= bound && 0 <= k < children(nodes, id).len()
            ==> visited.contains(children(nodes, id)[k])
}

/// What a node's count comes to once all that was not visited yet is visited.
pub open spec fn count_limit(
    nodes: Seq<NodeView>,
    counts: Map<usize, usize>,
    visited: Set<usize>,
    id: usize,
) -> int {
    count_of(counts, id) + references(nodes, Set::full(), id) - references(nodes, visited, id)
}

proof fn lemma_closed_has_parts(
    nodes: Seq<NodeView>,
    visited: Set<usize>,
    bound: usize,
    id: usize,
    part: usize,
)
    requires
        closed_up_to(nodes, visited, bound),
        visited.contains(id),
        id <= bound,
        reaches(nodes, id, part),
    ensures
        visited.contains(part),
    decreases id,
{
    if id != part {
        let k = choose|k: int|
            0 <= k < children(nodes, id).len() && #[trigger] children(nodes, id)[k] < id && reaches(
                nodes,
                children(nodes, id)[k],
                part,
            );
        lemma_closed_has_parts(nodes, visited, bound, children(nodes, id)[k], part);
    }
}

proof fn lemma_references_of_more(
    nodes: Seq<NodeView>,
    from: Set<usize>,
    more: usize,
    id: usize,
    bound: nat,
)
    requires
        !from.contains(more),
        bound <= usize::MAX,
    ensures
        references_below(nodes, from.insert(more), id, bound) == references_below(
            nodes,
            from,
            id,
            bound,
        ) + if more < bound {
            occurrences(children(nodes, more), id)
        } else {
            0
        },
    decreases bound,
{
    if bound > 0 {
        lemma_references_of_more(nodes, from, more, id, (bound - 1) as nat);
    }
}

proof fn lemma_references_of_fewer(
    nodes: Seq<NodeView>,
    from: Set<usize>,
    id: usize,
    bound: nat,
)
    ensures
        references_below(nodes, from, id, bound) <= references_below(nodes, Set::full(), id, bound),
        references_below(nodes, Set::full(), id, bound) <= edges_below(nodes, bound),
    decreases bound,
{
    if bound > 0 {
        lemma_references_of_fewer(nodes, from, id, (bound - 1) as nat);
        lemma_occurrences(children(nodes, (bound - 1) as usize), id);
    }
}

proof fn lemma_occurrences(ids: Seq<usize>, id: usize)
    ensures
        occurrences(ids, id) <= ids.len(),
    decreases ids.len(),
{
    if ids.len() > 0 {
        lemma_occurrences(ids.drop_last(), id);
    }
}

proof fn lemma_occurrences_so_far(ids: Seq<usize>, id: usize, k: int)
    requires
        0 <= k <= ids.len(),
    ensures
        occurrences(ids.take(k), id) <= occurrences(ids, id),
        k < ids.len() ==> occurrences(ids.take(k + 1), id) == occurrences(ids.take(k), id) + (if ids[k]
            == id {
            1nat
        } else {
            0
        }),
    decreases ids.len() - k,
{
    if k < ids.len() {
        assert(ids.take(k + 1).drop_last() =~= ids.take(k));
        lemma_occurrences_so_far(ids, id, k + 1);
    } else {
        assert(ids.take(k) =~= ids);
    }
}

/// Counts a use of a term and, if the term was not visited yet, the uses of its
/// parts by each other.
pub fn collect_ref_counts(
    termdag: &TermDag,
    term_id: usize,
    counts: &mut HashMap<usize, usize>,
    visited: &mut HashSet<usize>,
)
    requires
        ordered(dag_nodes(*termdag)),
        term_id < dag_nodes(*termdag).len() <= usize::MAX,
        closed_up_to(dag_nodes(*termdag), old(visited)@, term_id),
        all_counted(old(counts)@),
        forall|id: usize|
            #![trigger count_of(old(counts)@, id)]
            count_limit(dag_nodes(*termdag), old(counts)@, old(visited)@, id) + (if id == term_id {
                1int
            } else {
                0
            }) <= usize::MAX,
    ensures
        final(visited)@ == old(visited)@.union(parts(dag_nodes(*termdag), term_id)),
        forall|id: usize| #[trigger]
            count_of(final(counts)@, id) + references(dag_nodes(*termdag), old(visited)@, id)
                == count_of(old(counts)@, id) + references(
                dag_nodes(*termdag),
                final(visited)@,
                id,
            ) + (if id == term_id {
                1int
            } else {
                0
            }),
        all_counted(final(counts)@),
    decreases term_id,
{
    let ghost nodes = dag_nodes(*termdag);
    let ghost counts0 = counts@;
    let ghost visited0 = visited@;
    proof {
        lemma_references_of_fewer(nodes, visited0, term_id, nodes.len());
        assert(count_of(counts0, term_id) + 1 <= usize::MAX);
    }
    let count = counts.entry(term_id).or_insert(0);
    *count = *count + 1;
    let ghost counts1 = counts@;
    proof {
        assert(forall|id: usize| #[trigger]
            count_of(counts1, id) == count_of(counts0, id) + (if id == term_id {
                1int
            } else {
                0
            }));
    }
    if !visited.insert(term_id) {
        proof {
            assert forall|part: usize| reaches(nodes, term_id, part) implies visited0.contains(
                part,
            ) by {
                lemma_closed_has_parts(nodes, visited0, term_id, term_id, part);
            }
            assert(visited@ =~= visited0);
            assert(visited@ =~= visited0.union(parts(nodes, term_id)));
        }
        return;
    }
    let ghost visited1 = visited@;
    proof {
        assert forall|id: usize| references(nodes, visited1, id) == references(nodes, visited0, id)
            + occurrences(children(nodes, term_id), id) by {
            lemma_references_of_more(nodes, visited0, term_id, id, nodes.len());
        }
    }
    if let Node::App(_, ids) = dag_node(termdag, term_id) {
        let mut k: usize = 0;
        while k < ids.len()
            invariant
                nodes == dag_nodes(*termdag),
                ordered(nodes),
                term_id < nodes.len() <= usize::MAX,
                ids@ == children(nodes, term_id),
                k <= ids@.len(),
                visited1 == visited0.insert(term_id),
                !visited0.contains(term_id),
                visited@ == visited1.union(all_parts(nodes, ids@.take(k as int))),
                forall|id: usize, k: int|
                    #![trigger visited@.contains(id), children(nodes, id)[k]]
                    visited@.contains(id) && id < term_id && 0 <= k < children(nodes, id).len()
                        ==> visited@.contains(children(nodes, id)[k]),
                forall|id: usize| #[trigger]
                    references(nodes, visited1, id) == references(nodes, visited0, id)
                        + occurrences(ids@, id),
                forall|id: usize| #[trigger]
                    count_of(counts@, id) + references(nodes, visited1, id) == count_of(
                        counts0,
                        id,
                    ) + (if id == term_id {
                        1int
                    } else {
                        0
                    }) + occurrences(ids@.take(k as int), id) + references(nodes, visited@, id),
                forall|id: usize|
                    #![trigger count_of(counts0, id)]
                    count_limit(nodes, counts0, visited0, id) + (if id == term_id {
                        1int
                    } else {
                        0
                    }) <= usize::MAX,
                all_counted(counts@),
            decreases ids@.len() - k,
        {
            let ghost counts2 = counts@;
            let ghost visited2 = visited@;
            let child: usize = ids[k];
            proof {
                assert(children(nodes, term_id)[k as int] < term_id);
                assert forall|id: usize|
                    #![trigger count_of(counts2, id)]
                    count_limit(nodes, counts2, visited2, id) + (if id == child {
                        1int
                    } else {
                        0
                    }) <= usize::MAX by {
                    assert(count_of(counts0, id) >= 0);
                    assert(references(nodes, visited1, id) == references(nodes, visited0, id)
                        + occurrences(ids@, id));
                    lemma_occurrences_so_far(ids@, id, k as int);
                    lemma_occurrences_so_far(ids@, id, k + 1);
                }
            }
            collect_ref_counts(termdag, child, counts, visited);
            proof {
                assert(visited@ =~= visited1.union(all_parts(nodes, ids@.take(k + 1)))) by {
                    lemma_parts_so_far(nodes, ids@, k as int);
                }
                assert forall|id: usize, k: int|
                    #![trigger visited@.contains(id), children(nodes, id)[k]]
                    visited@.contains(id) && id < term_id && 0 <= k < children(
                        nodes,
                        id,
                    ).len() implies visited@.contains(children(nodes, id)[k]) by {
                    if !visited2.contains(id) {
                        assert(reaches(nodes, child, id));
                        law_parts_are_smaller(nodes, child, id);
                        assert(children(nodes, id)[k] < id);
                        assert(reaches(nodes, children(nodes, id)[k], children(nodes, id)[k]));
                        assert(reaches(nodes, id, children(nodes, id)[k]));
                        law_parts_of_parts(nodes, child, id, children(nodes, id)[k]);
                    } else {
                        assert(visited2.contains(children(nodes, id)[k]));
                    }
                }
                assert forall|id: usize| #[trigger]
                    count_of(counts@, id) + references(nodes, visited1, id) == count_of(
                        counts0,
                        id,
                    ) + (if id == term_id {
                        1int
                    } else {
                        0
                    }) + occurrences(ids@.take(k + 1), id) + references(nodes, visited@, id) by {
                    lemma_occurrences_so_far(ids@, id, k as int);
                    assert(count_of(counts2, id) >= 0);
                }
            }
            k = k + 1;
        }
        assert(ids@.take(k as int) =~= ids@);
    } else {
        assert(all_parts(nodes, children(nodes, term_id)) =~= Set::empty());
        assert(visited@ =~= visited1.union(all_parts(nodes, children(nodes, term_id))));
    }
    proof {
        lemma_parts(nodes, term_id);
        assert(visited@ =~= visited0.union(parts(nodes, term_id)));
    }
}

proof fn lemma_parts_so_far(nodes: Seq<NodeView>, ids: Seq<usize>, k: int)
    requires
        0 <= k < ids.len(),
    ensures
        all_parts(nodes, ids.take(k + 1)) == all_parts(nodes, ids.take(k)).union(
            parts(nodes, ids[k]),
        ),
{
    let front = ids.take(k);
    let longer = ids.take(k + 1);
    assert forall|part: usize| #[trigger]
        all_parts(nodes, longer).contains(part) <==> all_parts(nodes, front).union(
            parts(nodes, ids[k]),
        ).contains(part) by {
        if all_parts(nodes, longer).contains(part) {
            let j = choose|j: int| 0 <= j < longer.len() && reaches(nodes, #[trigger] longer[j], part);
            if j < k {
                assert(reaches(nodes, front[j], part));
            }
        }
        if all_parts(nodes, front).contains(part) {
            let j = choose|j: int| 0 <= j < front.len() && reaches(nodes, #[trigger] front[j], part);
            assert(reaches(nodes, longer[j], part));
        }
        if reaches(nodes, ids[k], part) {
            assert(reaches(nodes, longer[k], part));
        }
    }
    assert(all_parts(nodes, longer) =~= all_parts(nodes, front).union(parts(nodes, ids[k])));
}

/// A node's parts are the node, and the parts of its children.
proof fn lemma_parts(nodes: Seq<NodeView>, id: usize)
    requires
        ordered(nodes),
        id < nodes.len(),
    ensures
        parts(nodes, id) == all_parts(nodes, children(nodes, id)).insert(id),
{
    assert forall|part: usize| #[trigger]
        parts(nodes, id).contains(part) <==> all_parts(nodes, children(nodes, id)).insert(
            id,
        ).contains(part) by {
        if all_parts(nodes, children(nodes, id)).contains(part) {
            let k = choose|k: int|
                0 <= k < children(nodes, id).len() && reaches(
                    nodes,
                    #[trigger] children(nodes, id)[k],
                    part,
                );
            assert(children(nodes, id)[k] < id);
        }
        if reaches(nodes, id, part) && id != part {
            let k = choose|k: int|
                0 <= k < children(nodes, id).len() && #[trigger] children(nodes, id)[k] < id
                    && reaches(nodes, children(nodes, id)[k], part);
            assert(reaches(nodes, children(nodes, id)[k], part));
        }
    }
    assert(parts(nodes, id) =~= all_parts(nodes, children(nodes, id)).insert(id));
}

/// The size of a term, taken from `sizes` or found and put there. Sizes of its
/// parts that are found on the way are put there too, and no others.
pub fn compute_term_size(
    termdag: &TermDag,
    term_id: usize,
    sizes: &mut HashMap<usize, usize>,
) -> (size: usize)
    requires
        ordered(dag_nodes(*termdag)),
        term_id < dag_nodes(*termdag).len(),
        tree_size(dag_nodes(*termdag), term_id) <= usize::MAX,
        are_sizes(dag_nodes(*termdag), old(sizes)@),
    ensures
        size == tree_size(dag_nodes(*termdag), term_id),
        are_sizes(dag_nodes(*termdag), final(sizes)@),
        final(sizes)@.contains_key(term_id),
        old(sizes)@.submap_of(final(sizes)@),
        forall|id: usize| #[trigger]
            final(sizes)@.contains_key(id) ==> old(sizes)@.contains_key(id) || reaches(
                dag_nodes(*termdag),
                term_id,
                id,
            ),
        old(sizes)@.contains_key(term_id) ==> final(sizes)@ == old(sizes)@,
        closed_up_to(dag_nodes(*termdag), old(sizes)@.dom(), usize::MAX) ==> closed_up_to(
            dag_nodes(*termdag),
            final(sizes)@.dom(),
            usize::MAX,
        ) && final(sizes)@.dom() == old(sizes)@.dom().union(parts(dag_nodes(*termdag), term_id)),
    decreases term_id,
{
    let ghost nodes = dag_nodes(*termdag);
    let ghost old_sizes = sizes@;
    let ghost known = sizes@.dom();
    let ghost full = closed_up_to(nodes, known, usize::MAX);
    if let Some(size) = sizes.get(&term_id) {
        proof {
            if full {
                assert forall|part: usize| reaches(nodes, term_id, part) implies known.contains(
                    part,
                ) by {
                    lemma_closed_has_parts(nodes, known, usize::MAX, term_id, part);
                }
                assert(known =~= known.union(parts(nodes, term_id)));
            }
        }
        return *size;
    }
    let size: usize = match dag_node(termdag, term_id) {
        Node::App(_, ids) => {
            let mut sum: usize = 0;
            let mut k: usize = 0;
            assert(known =~= known.union(all_parts(nodes, ids@.take(0))));
            while k < ids.len()
                invariant
                    nodes == dag_nodes(*termdag),
                    ordered(nodes),
                    term_id < nodes.len(),
                    ids@ == children(nodes, term_id),
                    k <= ids@.len(),
                    1 + forest_size(nodes, ids@, term_id) <= usize::MAX,
                    sum == forest_size(nodes, ids@.take(k as int), term_id),
                    are_sizes(nodes, sizes@),
                    known == old_sizes.dom(),
                    old_sizes.submap_of(sizes@),
                    !old_sizes.contains_key(term_id),
                    forall|id: usize| #[trigger]
                        sizes@.contains_key(id) ==> old_sizes.contains_key(id) || (reaches(
                            nodes,
                            term_id,
                            id,
                        ) && id < term_id),
                    full ==> closed_up_to(nodes, sizes@.dom(), usize::MAX),
                    full ==> sizes@.dom() == known.union(all_parts(nodes, ids@.take(k as int))),
                decreases ids@.len() - k,
            {
                let ghost before = sizes@;
                proof {
                    assert(children(nodes, term_id)[k as int] < term_id);
                    lemma_forest_so_far(nodes, ids@, term_id, k as int);
                    lemma_parts_so_far(nodes, ids@, k as int);
                }
                let child: usize = ids[k];
                sum = sum + compute_term_size(termdag, child, sizes);
                k = k + 1;
                proof {
                    assert forall|id: usize| #[trigger] old_sizes.dom().contains(
                        id,
                    ) implies sizes@.dom().contains(id) && old_sizes[id] == sizes@[id] by {
                        assert(before.dom().contains(id));
                    }
                    assert forall|id: usize| #[trigger] sizes@.contains_key(
                        id,
                    ) implies old_sizes.contains_key(id) || (reaches(nodes, term_id, id) && id
                        < term_id) by {
                        if !before.contains_key(id) {
                            assert(reaches(nodes, children(nodes, term_id)[k - 1], id));
                            law_parts_are_smaller(nodes, child, id);
                        }
                    }
                    if full {
                        assert(sizes@.dom() =~= known.union(
                            all_parts(nodes, ids@.take(k as int)),
                        ));
                    }
                }
            }
            assert(ids@.take(k as int) =~= ids@);
            1 + sum
        },
        Node::Lit(_) | Node::Var(_) => {
            assert(known =~= known.union(all_parts(nodes, children(nodes, term_id))));
            1
        },
    };
    let ghost before = sizes@;
    sizes.insert(term_id, size);
    proof {
        assert(reaches(nodes, term_id, term_id));
        if full {
            lemma_parts(nodes, term_id);
            assert(sizes@.dom() =~= known.union(parts(nodes, term_id)));
            assert forall|id: usize, k: int|
                #![trigger sizes@.dom().contains(id), children(nodes, id)[k]]
                sizes@.dom().contains(id) && id <= usize::MAX && 0 <= k < children(
                    nodes,
                    id,
                ).len() implies sizes@.dom().contains(children(nodes, id)[k]) by {
                if id == term_id {
                    assert(children(nodes, id)[k] < id);
                    assert(reaches(nodes, children(nodes, id)[k], children(nodes, id)[k]));
                    assert(reaches(nodes, id, children(nodes, id)[k]));
                } else {
                    assert(before.dom().contains(id));
                }
            }
        }
    }
    size
}

/// Whether each of these is the size of its term.
pub open spec fn are_sizes(nodes: Seq<NodeView>, sizes: Map<usize, usize>) -> bool {
    forall|id: usize| #[trigger] sizes.contains_key(id) ==> sizes[id] == tree_size(nodes, id)
}

proof fn lemma_forest_so_far(nodes: Seq<NodeView>, ids: Seq<usize>, bound: usize, k: int)
    requires
        0 <= k < ids.len(),
        ids[k] < bound,
    ensures
        forest_size(nodes, ids.take(k + 1), bound) == forest_size(nodes, ids.take(k), bound)
            + tree_size(nodes, ids[k]),
        forest_size(nodes, ids.take(k + 1), bound) <= forest_size(nodes, ids, bound),
{
    assert(ids.take(k + 1).drop_last() =~= ids.take(k));
    lemma_forest_of_fewer(nodes, ids, bound, k + 1);
}

proof fn lemma_forest_of_fewer(nodes: Seq<NodeView>, ids: Seq<usize>, bound: usize, k: int)
    requires
        0 <= k <= ids.len(),
    ensures
        forest_size(nodes, ids.take(k), bound) <= forest_size(nodes, ids, bound),
    decreases ids.len() - k,
{
    if k < ids.len() {
        assert(ids.take(k + 1).drop_last() =~= ids.take(k));
        lemma_forest_of_fewer(nodes, ids, bound, k + 1);
    } else {
        assert(ids.take(k) =~= ids);
    }
}

/// Whether terms can be printed: they are there, and the numbers that come up
/// fit in a word.
pub open spec fn printable(nodes: Seq<NodeView>, roots: Seq<usize>) -> bool {
    &&& ordered(nodes)
    &&& 2 * nodes.len() + 8 <= usize::MAX
    &&& edges(nodes) + roots.len() <= usize::MAX
    &&& forall|k: int|
        0 <= k < roots.len() ==> #[trigger] roots[k] < nodes.len() && tree_size(nodes, roots[k])
            <= usize::MAX
}

/// How often each term and each part of one is used, and how large it is.
pub fn collect_multi_term_stats(termdag: &TermDag, all_term_ids: &[usize]) -> (stats: (
    HashMap<usize, usize>,
    HashMap<usize, usize>,
))
    requires
        printable(dag_nodes(*termdag), all_term_ids@),
    ensures
        stats.0@.dom() == all_parts(dag_nodes(*termdag), all_term_ids@),
        stats.1@.dom() == all_parts(dag_nodes(*termdag), all_term_ids@),
        forall|id: usize| #[trigger]
            stats.0@.contains_key(id) ==> stats.0@[id] == uses(
                dag_nodes(*termdag),
                all_term_ids@,
                id,
            ),
        forall|id: usize| #[trigger]
            stats.1@.contains_key(id) ==> stats.1@[id] == tree_size(dag_nodes(*termdag), id),
{
    let ghost nodes = dag_nodes(*termdag);
    let ghost roots = all_term_ids@;
    let mut counts: HashMap<usize, usize> = HashMap::new();
    let mut visited: HashSet<usize> = HashSet::new();
    let mut i: usize = 0;
    proof {
        assert(visited@ =~= all_parts(nodes, roots.take(0)));
        assert forall|id: usize| references(nodes, Set::empty(), id) == 0 by {
            lemma_no_references(nodes, id, nodes.len());
        }
    }
    while i < all_term_ids.len()
        invariant
            nodes == dag_nodes(*termdag),
            roots == all_term_ids@,
            printable(nodes, roots),
            i <= roots.len(),
            visited@ == all_parts(nodes, roots.take(i as int)),
            all_counted(counts@),
            forall|id: usize| #[trigger]
                count_of(counts@, id) == occurrences(roots.take(i as int), id) + references(
                    nodes,
                    visited@,
                    id,
                ),
        decreases roots.len() - i,
    {
        let ghost counts1 = counts@;
        let term_id: usize = all_term_ids[i];
        proof {
            lemma_all_parts_closed(nodes, roots.take(i as int), term_id);
            lemma_parts_so_far(nodes, roots, i as int);
            assert forall|id: usize|
                #![trigger count_of(counts1, id)]
                count_limit(nodes, counts1, visited@, id) + (if id == term_id {
                    1int
                } else {
                    0
                }) <= usize::MAX by {
                lemma_references_of_fewer(nodes, visited@, id, nodes.len());
                lemma_occurrences_so_far(roots, id, i as int);
                lemma_occurrences(roots.take(i + 1), id);
            }
        }
        collect_ref_counts(termdag, term_id, &mut counts, &mut visited);
        proof {
            assert forall|id: usize| #[trigger]
                count_of(counts@, id) == occurrences(roots.take(i + 1), id) + references(
                    nodes,
                    visited@,
                    id,
                ) by {
                lemma_occurrences_so_far(roots, id, i as int);
                assert(count_of(counts1, id) >= 0);
            }
        }
        i = i + 1;
    }
    assert(roots.take(i as int) =~= roots);
    let mut sizes: HashMap<usize, usize> = HashMap::new();
    let mut j: usize = 0;
    assert(sizes@.dom() =~= all_parts(nodes, roots.take(0)));
    while j < all_term_ids.len()
        invariant
            nodes == dag_nodes(*termdag),
            roots == all_term_ids@,
            printable(nodes, roots),
            j <= roots.len(),
            are_sizes(nodes, sizes@),
            closed_up_to(nodes, sizes@.dom(), usize::MAX),
            sizes@.dom() == all_parts(nodes, roots.take(j as int)),
        decreases roots.len() - j,
    {
        proof {
            lemma_parts_so_far(nodes, roots, j as int);
            assert(tree_size(nodes, roots[j as int]) <= usize::MAX);
        }
        compute_term_size(termdag, all_term_ids[j], &mut sizes);
        j = j + 1;
    }
    assert(roots.take(j as int) =~= roots);
    proof {
        assert forall|k: int| 0 <= k < roots.len() implies #[trigger] roots[k] < nodes.len() by {}
        assert forall|id: usize| #[trigger] counts@.contains_key(id) <==> visited@.contains(
            id,
        ) by {
            assert(count_of(counts@, id) == occurrences(roots, id) + references(nodes, visited@, id));
            law_used_are_parts(nodes, roots, id);
        }
        assert(counts@.dom() =~= visited@);
        assert forall|id: usize| #[trigger] counts@.contains_key(id) implies counts@[id] == uses(
            nodes,
            roots,
            id,
        ) by {
            assert(count_of(counts@, id) == occurrences(roots, id) + references(nodes, visited@, id));
        }
    }
    (counts, sizes)
}

proof fn lemma_no_references(nodes: Seq<NodeView>, id: usize, bound: nat)
    ensures
        references_below(nodes, Set::empty(), id, bound) == 0,
    decreases bound,
{
    if bound > 0 {
        lemma_no_references(nodes, id, (bound - 1) as nat);
    }
}

proof fn lemma_all_parts_closed(nodes: Seq<NodeView>, ids: Seq<usize>, bound: usize)
    requires
        ordered(nodes),
        forall|k: int| 0 <= k < ids.len() ==> #[trigger] ids[k] < nodes.len(),
    ensures
        closed_up_to(nodes, all_parts(nodes, ids), bound),
{
    let all = all_parts(nodes, ids);
    assert forall|id: usize, k: int|
        #![trigger all.contains(id), children(nodes, id)[k]]
        all.contains(id) && id <= bound && 0 <= k < children(nodes, id).len() implies all.contains(
        children(nodes, id)[k],
    ) by {
        let j = choose|j: int| 0 <= j < ids.len() && reaches(nodes, #[trigger] ids[j], id);
        law_parts_are_smaller(nodes, ids[j], id);
        let child = children(nodes, id)[k];
        assert(child < id);
        assert(reaches(nodes, child, child));
        assert(reaches(nodes, id, child));
        law_parts_of_parts(nodes, ids[j], id, child);
    }
}

} // verus!
