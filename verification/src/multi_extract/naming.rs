//! Which parts of printed terms get a name, and how terms are printed with the
//! names.

use vstd::prelude::*;

use crate::multi_extract::binding::{binding, PRETTY_INDENT_STEP};
use crate::multi_extract::dag::{children, law_parts_are_smaller, reaches, NodeView};
use crate::multi_extract::layout::{print_app, symbol, Printed};
use crate::multi_extract::text::{decimal, decimal_text, literal};

verus! {

/// What every name that is made up starts with.
pub open spec fn reserved() -> Seq<char> {
    "__"@
}

/// The name that is made up from a hint, when so many others were made up before.
pub open spec fn fresh_name(hint: Seq<char>, count: nat) -> Seq<char> {
    reserved() + hint + decimal(count)
}

/// What the name of a term is made up from: its constructor.
pub open spec fn hint(node: NodeView) -> Seq<char> {
    match node {
        NodeView::App(name, _) => name,
        _ => "t"@,
    }
}

/// A term that has a name: its number, and the column at which it was met first.
pub struct Named {
    pub id: usize,
    pub indent: nat,
}

/// Whether a term has a name.
pub open spec fn has_name(named: Seq<Named>, id: usize) -> bool {
    exists|i: int| 0 <= i < named.len() && (#[trigger] named[i]).id == id
}

/// The names of terms. They are made up one after the other.
pub open spec fn names(nodes: Seq<NodeView>, named: Seq<Named>) -> Map<usize, Seq<char>>
    decreases named.len(),
{
    if named.len() == 0 {
        Map::empty()
    } else {
        let last = named.last().id;
        names(nodes, named.drop_last()).insert(
            last,
            fresh_name(hint(nodes[last as int]), (named.len() - 1) as nat),
        )
    }
}

/// The terms that have a name once the term `id` was met at column `indent`.
/// Each term in `shared` gets its name when it is met for the first time, after
/// its parts got theirs.
pub open spec fn met(
    nodes: Seq<NodeView>,
    shared: Set<usize>,
    id: usize,
    indent: nat,
    named: Seq<Named>,
) -> Seq<Named>
    decreases id, children(nodes, id).len() + 1,
{
    if has_name(named, id) {
        named
    } else {
        let inner = met_all(
            nodes,
            shared,
            children(nodes, id),
            id,
            indent + PRETTY_INDENT_STEP as nat,
            named,
        );
        if shared.contains(id) {
            inner.push(Named { id, indent })
        } else {
            inner
        }
    }
}

/// The terms that have a name once each of `ids` was met in turn, those with
/// numbers below `bound`.
pub open spec fn met_all(
    nodes: Seq<NodeView>,
    shared: Set<usize>,
    ids: Seq<usize>,
    bound: usize,
    indent: nat,
    named: Seq<Named>,
) -> Seq<Named>
    decreases bound, ids.len(),
{
    if ids.len() == 0 {
        named
    } else {
        let before = met_all(nodes, shared, ids.drop_last(), bound, indent, named);
        if ids.last() < bound {
            met(nodes, shared, ids.last(), indent, before)
        } else {
            before
        }
    }
}

/// A term at column `indent`, with the names at hand.
pub open spec fn shown(
    nodes: Seq<NodeView>,
    names: Map<usize, Seq<char>>,
    id: usize,
    indent: nat,
) -> Printed
    decreases id, 2nat,
{
    if names.contains_key(id) {
        symbol(names[id])
    } else {
        spelled(nodes, names, id, indent)
    }
}

/// A term at column `indent` that is not itself given by a name, though its
/// parts may be.
pub open spec fn spelled(
    nodes: Seq<NodeView>,
    names: Map<usize, Seq<char>>,
    id: usize,
    indent: nat,
) -> Printed
    decreases id, 1nat,
{
    match nodes[id as int] {
        NodeView::App(name, ids) => print_app(
            name,
            shown_all(nodes, names, ids, id, indent + PRETTY_INDENT_STEP as nat),
            indent,
        ),
        NodeView::Lit(value) => symbol(literal(value)),
        NodeView::Var(name) => symbol(name),
    }
}

/// Terms at column `indent`, with the names at hand. Of those with numbers not
/// below `bound`, nothing is printed.
pub open spec fn shown_all(
    nodes: Seq<NodeView>,
    names: Map<usize, Seq<char>>,
    ids: Seq<usize>,
    bound: usize,
    indent: nat,
) -> Seq<Printed>
    decreases bound, 0nat,
{
    Seq::new(
        ids.len(),
        |k: int|
            if ids[k] < bound {
                shown(nodes, names, ids[k], indent)
            } else {
                symbol(Seq::empty())
            },
    )
}

/// The commands that define the names, one after the other. Each uses the names
/// that were defined before it.
pub open spec fn definitions(nodes: Seq<NodeView>, named: Seq<Named>) -> Seq<char>
    decreases named.len(),
{
    if named.len() == 0 {
        Seq::empty()
    } else {
        let before = named.drop_last();
        let last = named.last();
        definitions(nodes, before) + binding(
            names(nodes, named)[last.id],
            spelled(nodes, names(nodes, before), last.id, last.indent).pretty,
        )
    }
}

/// Whether no term has two names.
pub open spec fn named_once(named: Seq<Named>) -> bool {
    forall|i: int, j: int|
        0 <= i < j < named.len() ==> (#[trigger] named[i]).id != (#[trigger] named[j]).id
}

/// Whether the shared parts of terms with a name have a name too.
pub open spec fn names_parts(
    nodes: Seq<NodeView>,
    shared: Set<usize>,
    named: Seq<Named>,
) -> bool {
    forall|id: usize, part: usize|
        has_name(named, id) && shared.contains(part) && #[trigger] reaches(nodes, id, part)
            ==> has_name(named, part)
}

/// What becomes of the names when the terms `tops` are met: none is lost, each
/// new one is that of a shared part, and all shared parts have one.
pub open spec fn adds_names(
    nodes: Seq<NodeView>,
    shared: Set<usize>,
    tops: Set<usize>,
    before: Seq<Named>,
    after: Seq<Named>,
) -> bool {
    &&& before.is_prefix_of(after)
    &&& named_once(before) ==> named_once(after)
    &&& forall|i: int|
        before.len() <= i < after.len() ==> shared.contains((#[trigger] after[i]).id)
            && !has_name(before, after[i].id) && exists|top: usize|
            tops.contains(top) && #[trigger] reaches(nodes, top, after[i].id)
    &&& names_parts(nodes, shared, before) ==> names_parts(nodes, shared, after)
    &&& names_parts(nodes, shared, before) ==> forall|top: usize, part: usize|
        tops.contains(top) && shared.contains(part) && #[trigger] reaches(nodes, top, part)
            ==> has_name(after, part)
}

/// The terms among `ids` with numbers below `bound`.
pub open spec fn among(ids: Seq<usize>, bound: usize) -> Set<usize> {
    Set::new(|id: usize| ids.contains(id) && id < bound)
}

proof fn lemma_keeps_names(before: Seq<Named>, after: Seq<Named>, id: usize)
    requires
        before.is_prefix_of(after),
        has_name(before, id),
    ensures
        has_name(after, id),
{
    let i = choose|i: int| 0 <= i < before.len() && (#[trigger] before[i]).id == id;
    assert(after[i] == before[i]);
}

/// Terms that are met one after the other.
proof fn lemma_adds_names_twice(
    nodes: Seq<NodeView>,
    shared: Set<usize>,
    first: Set<usize>,
    second: Set<usize>,
    named: Seq<Named>,
    between: Seq<Named>,
    after: Seq<Named>,
)
    requires
        adds_names(nodes, shared, first, named, between),
        adds_names(nodes, shared, second, between, after),
    ensures
        adds_names(nodes, shared, first.union(second), named, after),
{
    let tops = first.union(second);
    assert(named =~= after.take(named.len() as int)) by {
        assert(named =~= between.take(named.len() as int));
        assert(between =~= after.take(between.len() as int));
    }
    assert forall|i: int| named.len() <= i < after.len() implies shared.contains(
        (#[trigger] after[i]).id,
    ) && !has_name(named, after[i].id) && exists|top: usize|
        tops.contains(top) && #[trigger] reaches(nodes, top, after[i].id) by {
        if i < between.len() {
            assert(between[i] == after[i]);
            let top = choose|top: usize|
                first.contains(top) && #[trigger] reaches(nodes, top, between[i].id);
            assert(tops.contains(top));
        } else {
            if has_name(named, after[i].id) {
                lemma_keeps_names(named, between, after[i].id);
            }
            let top = choose|top: usize|
                second.contains(top) && #[trigger] reaches(nodes, top, after[i].id);
            assert(tops.contains(top));
        }
    }
    if names_parts(nodes, shared, named) {
        assert forall|top: usize, part: usize|
            tops.contains(top) && shared.contains(part) && #[trigger] reaches(
                nodes,
                top,
                part,
            ) implies has_name(after, part) by {
            if first.contains(top) {
                lemma_keeps_names(between, after, part);
            }
        }
    }
}

/// Meeting a term adds just the names of its shared parts that had none.
pub proof fn law_met(
    nodes: Seq<NodeView>,
    shared: Set<usize>,
    id: usize,
    indent: nat,
    named: Seq<Named>,
)
    ensures
        adds_names(nodes, shared, set![id], named, met(nodes, shared, id, indent, named)),
    decreases id, children(nodes, id).len() + 1,
{
    let after = met(nodes, shared, id, indent, named);
    if has_name(named, id) {
        assert(named =~= named.take(named.len() as int));
    } else {
        let ids = children(nodes, id);
        let tops = among(ids, id);
        let deeper = indent + PRETTY_INDENT_STEP as nat;
        let inner = met_all(nodes, shared, ids, id, deeper, named);
        law_met_all(nodes, shared, ids, id, deeper, named);
        assert forall|top: usize, part: usize|
            tops.contains(top) && #[trigger] reaches(nodes, top, part) implies reaches(
            nodes,
            id,
            part,
        ) && part < id by {
            let k = choose|k: int| 0 <= k < ids.len() && ids[k] == top;
            assert(children(nodes, id)[k] < id);
            law_parts_are_smaller(nodes, top, part);
        }
        assert(inner.is_prefix_of(after));
        assert(named =~= after.take(named.len() as int)) by {
            assert(named =~= inner.take(named.len() as int));
        }
        assert forall|i: int| named.len() <= i < inner.len() implies (#[trigger] inner[i]).id
            < id by {
            let top = choose|top: usize|
                tops.contains(top) && #[trigger] reaches(nodes, top, inner[i].id);
            assert(reaches(nodes, top, inner[i].id));
        }
        assert(!has_name(inner, id)) by {
            if has_name(inner, id) {
                let i = choose|i: int| 0 <= i < inner.len() && (#[trigger] inner[i]).id == id;
                if i < named.len() {
                    assert(named[i] == inner[i]);
                }
            }
        }
        assert(reaches(nodes, id, id));
        assert forall|i: int| named.len() <= i < after.len() implies shared.contains(
            (#[trigger] after[i]).id,
        ) && !has_name(named, after[i].id) && exists|top: usize|
            set![id].contains(top) && #[trigger] reaches(nodes, top, after[i].id) by {
            if i < inner.len() {
                assert(inner[i] == after[i]);
                let top = choose|top: usize|
                    tops.contains(top) && #[trigger] reaches(nodes, top, inner[i].id);
                assert(reaches(nodes, id, after[i].id));
            } else {
                assert(reaches(nodes, id, after[i].id));
            }
        }
        if named_once(named) {
            assert forall|i: int, j: int| 0 <= i < j < after.len() implies (#[trigger] after[i]).id
                != (#[trigger] after[j]).id by {
                if j < inner.len() {
                    assert(inner[i].id != inner[j].id);
                } else {
                    assert(inner[i] == after[i]);
                }
            }
        }
        if names_parts(nodes, shared, named) {
            assert forall|part: usize|
                shared.contains(part) && #[trigger] reaches(nodes, id, part) implies has_name(
                after,
                part,
            ) by {
                if part == id {
                    assert(after[inner.len() as int].id == id);
                } else {
                    let k = choose|k: int|
                        0 <= k < ids.len() && #[trigger] children(nodes, id)[k] < id && reaches(
                            nodes,
                            children(nodes, id)[k],
                            part,
                        );
                    assert(ids.contains(ids[k]));
                    assert(tops.contains(ids[k]));
                    assert(has_name(inner, part));
                    lemma_keeps_names(inner, after, part);
                }
            }
            assert forall|top: usize, part: usize|
                has_name(after, top) && shared.contains(part) && #[trigger] reaches(
                    nodes,
                    top,
                    part,
                ) implies has_name(after, part) by {
                if top != id {
                    let i = choose|i: int| 0 <= i < after.len() && (#[trigger] after[i]).id == top;
                    assert(i < inner.len());
                    assert(inner[i].id == top);
                    assert(has_name(inner, part));
                    lemma_keeps_names(inner, after, part);
                }
            }
        }
    }
}

/// Meeting terms one after the other adds just the names of their shared parts
/// that had none.
pub proof fn law_met_all(
    nodes: Seq<NodeView>,
    shared: Set<usize>,
    ids: Seq<usize>,
    bound: usize,
    indent: nat,
    named: Seq<Named>,
)
    ensures
        adds_names(
            nodes,
            shared,
            among(ids, bound),
            named,
            met_all(nodes, shared, ids, bound, indent, named),
        ),
    decreases bound, ids.len(),
{
    if ids.len() == 0 {
        assert(named =~= named.take(named.len() as int));
    } else {
        let front = ids.drop_last();
        let last = ids.last();
        let between = met_all(nodes, shared, front, bound, indent, named);
        law_met_all(nodes, shared, front, bound, indent, named);
        assert(ids =~= front.push(last));
        assert forall|id: usize| #[trigger] ids.contains(id) <==> front.contains(id) || id
            == last by {
            if ids.contains(id) {
                let k = choose|k: int| 0 <= k < ids.len() && ids[k] == id;
                if k < front.len() {
                    assert(front[k] == id);
                }
            }
            if front.contains(id) {
                let k = choose|k: int| 0 <= k < front.len() && front[k] == id;
                assert(ids[k] == id);
            }
            assert(ids[ids.len() - 1] == last);
        }
        if last < bound {
            let after = met(nodes, shared, last, indent, between);
            law_met(nodes, shared, last, indent, between);
            lemma_adds_names_twice(
                nodes,
                shared,
                among(front, bound),
                set![last],
                named,
                between,
                after,
            );
            assert(among(ids, bound) =~= among(front, bound).union(set![last]));
        } else {
            assert(among(ids, bound) =~= among(front, bound));
        }
    }
}

/// Just the terms with a name have one, the name of each made up from its
/// constructor and the number of names before it.
pub proof fn law_names(nodes: Seq<NodeView>, named: Seq<Named>)
    requires
        named_once(named),
    ensures
        forall|id: usize| #[trigger] names(nodes, named).contains_key(id) <==> has_name(named, id),
        forall|i: int|
            0 <= i < named.len() ==> names(nodes, named)[(#[trigger] named[i]).id] == fresh_name(
                hint(nodes[named[i].id as int]),
                i as nat,
            ),
    decreases named.len(),
{
    if named.len() > 0 {
        let front = named.drop_last();
        assert forall|i: int, j: int| 0 <= i < j < front.len() implies (#[trigger] front[i]).id != (
        #[trigger] front[j]).id by {
            assert(named[i].id != named[j].id);
        }
        law_names(nodes, front);
        assert forall|id: usize| #[trigger] names(nodes, named).contains_key(id) <==> has_name(
            named,
            id,
        ) by {
            assert(names(nodes, front).contains_key(id) <==> has_name(front, id));
            if has_name(front, id) {
                lemma_keeps_names(front, named, id);
            }
            if id == named.last().id {
                assert(named[named.len() - 1].id == id);
            }
            if has_name(named, id) && id != named.last().id {
                let i = choose|i: int| 0 <= i < named.len() && (#[trigger] named[i]).id == id;
                assert(front[i].id == id);
            }
        }
        assert forall|i: int| 0 <= i < named.len() implies names(nodes, named)[(
        #[trigger] named[i]).id] == fresh_name(hint(nodes[named[i].id as int]), i as nat) by {
            if i < front.len() {
                assert(front[i] == named[i]);
                assert(named[i].id != named[named.len() - 1].id);
            }
        }
    }
}

/// Names stay what they are when others are added.
pub proof fn law_names_stay(nodes: Seq<NodeView>, before: Seq<Named>, after: Seq<Named>, id: usize)
    requires
        before.is_prefix_of(after),
        named_once(after),
        has_name(before, id),
    ensures
        names(nodes, after).contains_key(id),
        names(nodes, before).contains_key(id),
        names(nodes, after)[id] == names(nodes, before)[id],
{
    assert forall|i: int, j: int| 0 <= i < j < before.len() implies (#[trigger] before[i]).id != (
    #[trigger] before[j]).id by {
        assert(before[i] == after[i] && before[j] == after[j]);
    }
    law_names(nodes, before);
    law_names(nodes, after);
    lemma_keeps_names(before, after, id);
    let i = choose|i: int| 0 <= i < before.len() && (#[trigger] before[i]).id == id;
    assert(after[i] == before[i]);
}

/// What was defined stays defined: when names are added, their definitions come
/// behind the others, and no name changes.
pub proof fn law_definitions_grow(nodes: Seq<NodeView>, before: Seq<Named>, after: Seq<Named>)
    requires
        before.is_prefix_of(after),
        named_once(after),
    ensures
        definitions(nodes, before).is_prefix_of(definitions(nodes, after)),
        names(nodes, before).submap_of(names(nodes, after)),
    decreases after.len(),
{
    let some = definitions(nodes, before);
    let all = definitions(nodes, after);
    if before.len() == after.len() {
        assert(before =~= after);
        assert(some =~= all.take(some.len() as int));
    } else {
        let front = after.drop_last();
        assert(before =~= front.take(before.len() as int));
        assert forall|i: int, j: int| 0 <= i < j < front.len() implies (#[trigger] front[i]).id != (
        #[trigger] front[j]).id by {
            assert(after[i].id != after[j].id);
        }
        law_definitions_grow(nodes, before, front);
        law_names(nodes, front);
        assert(!has_name(front, after.last().id)) by {
            if has_name(front, after.last().id) {
                let i = choose|i: int|
                    0 <= i < front.len() && (#[trigger] front[i]).id == after.last().id;
                assert(after[i].id != after[after.len() - 1].id);
            }
        }
        let most = definitions(nodes, front);
        assert(some =~= most.take(some.len() as int));
        assert(most =~= all.take(most.len() as int));
        assert(some =~= all.take(some.len() as int));
        assert forall|id: usize| #[trigger] names(nodes, before).dom().contains(
            id,
        ) implies names(nodes, after).dom().contains(id) && names(nodes, before)[id] == names(
            nodes,
            after,
        )[id] by {
            assert(names(nodes, front).dom().contains(id));
        }
    }
}

/// Whether two sets of names agree on a term.
pub open spec fn agree(
    some: Map<usize, Seq<char>>,
    other: Map<usize, Seq<char>>,
    id: usize,
) -> bool {
    &&& some.contains_key(id) <==> other.contains_key(id)
    &&& some.contains_key(id) ==> some[id] == other[id]
}

/// How a term is printed depends on the names of its parts alone.
pub proof fn law_shown_by_names_of_parts(
    nodes: Seq<NodeView>,
    some: Map<usize, Seq<char>>,
    other: Map<usize, Seq<char>>,
    id: usize,
    indent: nat,
)
    requires
        forall|part: usize| #[trigger] reaches(nodes, id, part) && part != id ==> agree(
            some,
            other,
            part,
        ),
    ensures
        spelled(nodes, some, id, indent) == spelled(nodes, other, id, indent),
        agree(some, other, id) ==> shown(nodes, some, id, indent) == shown(
            nodes,
            other,
            id,
            indent,
        ),
    decreases id,
{
    if let NodeView::App(name, ids) = nodes[id as int] {
        let deeper = indent + PRETTY_INDENT_STEP as nat;
        assert forall|k: int| 0 <= k < ids.len() && ids[k] < id implies shown(
            nodes,
            some,
            #[trigger] ids[k],
            deeper,
        ) == shown(nodes, other, ids[k], deeper) by {
            let child = ids[k];
            assert(children(nodes, id)[k] < id);
            assert forall|part: usize| #[trigger] reaches(nodes, child, part) implies agree(
                some,
                other,
                part,
            ) by {
                law_parts_are_smaller(nodes, child, part);
                assert(reaches(nodes, id, part));
            }
            assert(reaches(nodes, child, child));
            law_shown_by_names_of_parts(nodes, some, other, child, deeper);
        }
        assert(shown_all(nodes, some, ids, id, deeper) =~= shown_all(
            nodes,
            other,
            ids,
            id,
            deeper,
        ));
    }
}

/// Once a term was met, names that are added later change nothing in how it is
/// printed.
pub proof fn law_shown_stays(
    nodes: Seq<NodeView>,
    shared: Set<usize>,
    tops: Set<usize>,
    before: Seq<Named>,
    after: Seq<Named>,
    id: usize,
    indent: nat,
)
    requires
        named_once(before),
        adds_names(nodes, shared, tops, before, after),
        forall|part: usize| #[trigger]
            reaches(nodes, id, part) && shared.contains(part) ==> has_name(before, part),
    ensures
        shown(nodes, names(nodes, before), id, indent) == shown(
            nodes,
            names(nodes, after),
            id,
            indent,
        ),
{
    law_names(nodes, before);
    law_names(nodes, after);
    assert forall|part: usize| #[trigger] reaches(nodes, id, part) implies agree(
        names(nodes, before),
        names(nodes, after),
        part,
    ) by {
        if has_name(before, part) {
            law_names_stay(nodes, before, after, part);
        } else if has_name(after, part) {
            let i = choose|i: int| 0 <= i < after.len() && (#[trigger] after[i]).id == part;
            if i < before.len() {
                assert(before[i] == after[i]);
            }
            assert(shared.contains(part));
        }
    }
    assert(reaches(nodes, id, id));
    law_shown_by_names_of_parts(nodes, names(nodes, before), names(nodes, after), id, indent);
}

/// Makes up names.
#[derive(Debug)]
pub struct FreshNames {
    reserved: String,
    count: usize,
}

impl FreshNames {
    /// What every name starts with.
    pub closed spec fn prefix(self) -> Seq<char> {
        self.reserved@
    }

    /// How many names were made up.
    pub closed spec fn made(self) -> nat {
        self.count as nat
    }

    /// Makes up names that start with `reserved`.
    pub fn new(reserved: String) -> (fresh: FreshNames)
        ensures
            fresh.prefix() == reserved@,
            fresh.made() == 0,
    {
        FreshNames { reserved, count: 0 }
    }

    /// Makes up a name.
    pub fn fresh(&mut self, hint: &str) -> (name: String)
        requires
            old(self).made() < usize::MAX,
        ensures
            name@ == old(self).prefix() + hint@ + decimal(old(self).made()),
            final(self).prefix() == old(self).prefix(),
            final(self).made() == old(self).made() + 1,
    {
        let mut name: String = self.reserved.clone();
        name.append(hint);
        name.append(decimal_text(self.count as u64).as_str());
        self.count = self.count + 1;
        name
    }
}

} // verus!
