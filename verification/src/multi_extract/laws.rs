//! What holds of all that multi-extraction prints.

use vstd::prelude::*;

use crate::multi_extract::binding::PRETTY_INDENT_STEP;
use crate::multi_extract::dag::{children, law_used_are_parts, reaches, tree_size, uses, NodeView};
use crate::multi_extract::layout::{inline_app, joined, print_app, stacked, stacked_app, Printed};
use crate::multi_extract::naming::{
    agree, among, definitions, fresh_name, has_name, hint, law_met_all, law_names, law_names_stay,
    law_shown_by_names_of_parts, met, met_all, named_once, names, names_parts, reserved, shown,
    shown_all, spelled, Named,
};
use crate::multi_extract::output::{flattened, named_for, shared, TERM_INDENT};
use crate::multi_extract::render::MIN_SHARED_TERM_SIZE;
use crate::multi_extract::stats::printable;
use crate::multi_extract::text::{decimal, digit, spaces};

verus! {

/// A part of printed terms gets a name just if it is used more than once and is
/// not too small, and it gets no more than one.
pub proof fn law_named_are_shared(nodes: Seq<NodeView>, roots: Seq<usize>)
    requires
        printable(nodes, roots),
    ensures
        named_once(named_for(nodes, roots)),
        forall|id: usize| #[trigger]
            has_name(named_for(nodes, roots), id) <==> uses(nodes, roots, id) > 1 && tree_size(
                nodes,
                id,
            ) >= MIN_SHARED_TERM_SIZE,
{
    let common = shared(nodes, roots);
    let named = named_for(nodes, roots);
    let bound = nodes.len() as usize;
    law_met_all(nodes, common, roots, bound, TERM_INDENT as nat, Seq::empty());
    assert forall|id: usize| #[trigger] has_name(named, id) <==> common.contains(id) by {
        if has_name(named, id) {
            let i = choose|i: int| 0 <= i < named.len() && (#[trigger] named[i]).id == id;
            assert(common.contains(named[i].id));
        }
        if common.contains(id) {
            law_used_are_parts(nodes, roots, id);
            let k = choose|k: int| 0 <= k < roots.len() && reaches(nodes, #[trigger] roots[k], id);
            assert(roots.contains(roots[k]));
            assert(among(roots, bound).contains(roots[k]));
        }
    }
}

/// Where nothing is shared, no name is given, and nothing but the terms is
/// printed.
pub proof fn law_nothing_shared(nodes: Seq<NodeView>, groups: Seq<Seq<usize>>)
    requires
        printable(nodes, flattened(groups)),
        forall|id: usize| #[trigger]
            uses(nodes, flattened(groups), id) <= 1 || tree_size(nodes, id) < MIN_SHARED_TERM_SIZE,
    ensures
        definitions(nodes, named_for(nodes, flattened(groups))) == Seq::<char>::empty(),
        names(nodes, named_for(nodes, flattened(groups))) == Map::<usize, Seq<char>>::empty(),
{
    let roots = flattened(groups);
    let named = named_for(nodes, roots);
    law_named_are_shared(nodes, roots);
    if named.len() > 0 {
        assert(has_name(named, named[0].id));
        assert(uses(nodes, roots, named[0].id) > 1);
    }
}

/// Whether each term with a name got it after its shared parts got theirs.
pub open spec fn parts_first(
    nodes: Seq<NodeView>,
    shared: Set<usize>,
    named: Seq<Named>,
) -> bool {
    forall|i: int, part: usize|
        #![trigger named[i], shared.contains(part)]
        0 <= i < named.len() && reaches(nodes, named[i].id, part) && part != named[i].id
            && shared.contains(part) ==> has_name(named.take(i), part)
}

proof fn lemma_met_parts_first(
    nodes: Seq<NodeView>,
    shared: Set<usize>,
    id: usize,
    indent: nat,
    named: Seq<Named>,
)
    requires
        names_parts(nodes, shared, named),
        parts_first(nodes, shared, named),
    ensures
        parts_first(nodes, shared, met(nodes, shared, id, indent, named)),
    decreases id, children(nodes, id).len() + 1,
{
    if !has_name(named, id) {
        let ids = children(nodes, id);
        let deeper = indent + PRETTY_INDENT_STEP as nat;
        let inner = met_all(nodes, shared, ids, id, deeper, named);
        let after = met(nodes, shared, id, indent, named);
        lemma_met_all_parts_first(nodes, shared, ids, id, deeper, named);
        law_met_all(nodes, shared, ids, id, deeper, named);
        assert forall|i: int, part: usize|
            #![trigger after[i], shared.contains(part)]
            0 <= i < after.len() && reaches(nodes, after[i].id, part) && part != after[i].id
                && shared.contains(part) implies has_name(after.take(i), part) by {
            if i < inner.len() {
                assert(after[i] == inner[i]);
                assert(after.take(i) =~= inner.take(i));
            } else {
                assert(after.take(i) =~= inner);
                let k = choose|k: int|
                    0 <= k < ids.len() && #[trigger] children(nodes, id)[k] < id && reaches(
                        nodes,
                        children(nodes, id)[k],
                        part,
                    );
                assert(ids.contains(ids[k]));
                assert(among(ids, id).contains(ids[k]));
            }
        }
    }
}

proof fn lemma_met_all_parts_first(
    nodes: Seq<NodeView>,
    shared: Set<usize>,
    ids: Seq<usize>,
    bound: usize,
    indent: nat,
    named: Seq<Named>,
)
    requires
        names_parts(nodes, shared, named),
        parts_first(nodes, shared, named),
    ensures
        parts_first(nodes, shared, met_all(nodes, shared, ids, bound, indent, named)),
    decreases bound, ids.len(),
{
    if ids.len() > 0 {
        let front = ids.drop_last();
        let before = met_all(nodes, shared, front, bound, indent, named);
        lemma_met_all_parts_first(nodes, shared, front, bound, indent, named);
        law_met_all(nodes, shared, front, bound, indent, named);
        if ids.last() < bound {
            lemma_met_parts_first(nodes, shared, ids.last(), indent, before);
        }
    }
}

/// On the proper parts of a term with a name, the names that were given before
/// it agree with all names.
pub proof fn law_names_agree_on_parts(
    nodes: Seq<NodeView>,
    roots: Seq<usize>,
    i: int,
    part: usize,
)
    requires
        printable(nodes, roots),
        0 <= i < named_for(nodes, roots).len(),
        reaches(nodes, named_for(nodes, roots)[i].id, part),
        part != named_for(nodes, roots)[i].id,
    ensures
        agree(
            names(nodes, named_for(nodes, roots).take(i)),
            names(nodes, named_for(nodes, roots)),
            part,
        ),
{
    let common = shared(nodes, roots);
    let named = named_for(nodes, roots);
    let bound = nodes.len() as usize;
    let earlier = named.take(i);
    law_named_are_shared(nodes, roots);
    law_names(nodes, named);
    assert(named_once(earlier)) by {
        assert forall|a: int, b: int| 0 <= a < b < earlier.len() implies (#[trigger] earlier[a]).id
            != (#[trigger] earlier[b]).id by {
            assert(named[a].id != named[b].id);
        }
    }
    law_names(nodes, earlier);
    lemma_met_all_parts_first(nodes, common, roots, bound, TERM_INDENT as nat, Seq::empty());
    if has_name(named, part) {
        assert(common.contains(part));
        assert(named[i].id != part);
        assert(has_name(earlier, part));
    }
    if has_name(earlier, part) {
        law_names_stay(nodes, earlier, named, part);
    }
}

/// Every name that is used in a definition is defined before it: with all the
/// names at hand, the definition reads no different than with the earlier ones.
pub proof fn law_defined_before_use(nodes: Seq<NodeView>, roots: Seq<usize>, i: int)
    requires
        printable(nodes, roots),
        0 <= i < named_for(nodes, roots).len(),
    ensures
        ({
            let named = named_for(nodes, roots);
            spelled(nodes, names(nodes, named.take(i)), named[i].id, named[i].indent) == spelled(
                nodes,
                names(nodes, named),
                named[i].id,
                named[i].indent,
            )
        }),
{
    let named = named_for(nodes, roots);
    let earlier = named.take(i);
    let id = named[i].id;
    assert forall|part: usize| #[trigger] reaches(nodes, id, part) && part != id implies agree(
        names(nodes, earlier),
        names(nodes, named),
        part,
    ) by {
        law_names_agree_on_parts(nodes, roots, i, part);
    }
    law_shown_by_names_of_parts(
        nodes,
        names(nodes, earlier),
        names(nodes, named),
        id,
        named[i].indent,
    );
}

/// Whether a text is another one, with digits behind it.
pub open spec fn numbers(longer: Seq<char>, shorter: Seq<char>) -> bool {
    &&& shorter.len() < longer.len()
    &&& shorter.is_prefix_of(longer)
    &&& forall|i: int| shorter.len() <= i < longer.len() ==> '0' <= #[trigger] longer[i] <= '9'
}

/// No name is given to two terms, unless the name of one's constructor is that
/// of the other's with digits behind it.
pub proof fn law_names_differ(nodes: Seq<NodeView>, named: Seq<Named>, i: int, j: int)
    requires
        named_once(named),
        0 <= i < j < named.len(),
        !numbers(hint(nodes[named[i].id as int]), hint(nodes[named[j].id as int])),
        !numbers(hint(nodes[named[j].id as int]), hint(nodes[named[i].id as int])),
    ensures
        names(nodes, named)[named[i].id] != names(nodes, named)[named[j].id],
{
    law_names(nodes, named);
    let one = hint(nodes[named[i].id as int]);
    let other = hint(nodes[named[j].id as int]);
    if fresh_name(one, i as nat) == fresh_name(other, j as nat) {
        let skipped = reserved().len() as int;
        assert(fresh_name(one, i as nat).skip(skipped) =~= one + decimal(i as nat));
        assert(fresh_name(other, j as nat).skip(skipped) =~= other + decimal(j as nat));
        if one.len() <= other.len() {
            lemma_numbers_differ(one, i as nat, other, j as nat);
        } else {
            lemma_numbers_differ(other, j as nat, one, i as nat);
        }
    }
}

proof fn lemma_numbers_differ(shorter: Seq<char>, i: nat, longer: Seq<char>, j: nat)
    requires
        shorter + decimal(i) == longer + decimal(j),
        shorter.len() <= longer.len(),
        !numbers(longer, shorter),
    ensures
        i == j,
{
    let text = shorter + decimal(i);
    assert(shorter =~= text.take(shorter.len() as int));
    assert(longer =~= text.take(longer.len() as int));
    if shorter.len() < longer.len() {
        lemma_decimal_has_digits(i);
        assert(shorter =~= longer.take(shorter.len() as int));
        assert forall|k: int| shorter.len() <= k < longer.len() implies '0' <= #[trigger] longer[k]
            <= '9' by {
            assert(longer[k] == text[k]);
            assert(text[k] == decimal(i)[k - shorter.len()]);
        }
    } else {
        assert(decimal(i) =~= text.skip(shorter.len() as int));
        assert(decimal(j) =~= text.skip(longer.len() as int));
        lemma_decimal_is_unique(i, j);
    }
}

proof fn lemma_decimal_has_digits(n: nat)
    ensures
        forall|k: int| 0 <= k < decimal(n).len() ==> '0' <= #[trigger] decimal(n)[k] <= '9',
        decimal(n).len() > 0,
    decreases n,
{
    if n >= 10 {
        lemma_decimal_has_digits(n / 10);
    }
}

proof fn lemma_decimal_is_unique(i: nat, j: nat)
    requires
        decimal(i) == decimal(j),
    ensures
        i == j,
    decreases i,
{
    assert(decimal(i).last() == digit(i % 10));
    assert(decimal(j).last() == digit(j % 10));
    assert(i % 10 == j % 10);
    lemma_decimal_has_digits(i / 10);
    lemma_decimal_has_digits(j / 10);
    if i >= 10 && j >= 10 {
        assert(decimal(i).drop_last() =~= decimal(i / 10));
        assert(decimal(j).drop_last() =~= decimal(j / 10));
        lemma_decimal_is_unique(i / 10, j / 10);
    }
}

/// A text without its blanks and line breaks.
pub open spec fn solid(text: Seq<char>) -> Seq<char> {
    text.filter(|c: char| c != ' ' && c != '\n')
}

proof fn lemma_solid_sum(one: Seq<char>, other: Seq<char>)
    ensures
        solid(one + other) == solid(one) + solid(other),
{
    Seq::filter_distributes_over_add(one, other, |c: char| c != ' ' && c != '\n');
}

proof fn lemma_blank(text: Seq<char>)
    requires
        forall|i: int| 0 <= i < text.len() ==> #[trigger] text[i] == ' ' || text[i] == '\n',
    ensures
        solid(text) == Seq::<char>::empty(),
    decreases text.len(),
{
    reveal(Seq::filter);
    if text.len() > 0 {
        lemma_blank(text.drop_last());
    }
}

/// However a term is laid out, it reads the same but for blanks and line
/// breaks. If it is laid out without line breaks, it reads the same throughout.
pub proof fn law_layout(
    nodes: Seq<NodeView>,
    names: Map<usize, Seq<char>>,
    id: usize,
    indent: nat,
)
    ensures
        lays_out(shown(nodes, names, id, indent)),
        lays_out(spelled(nodes, names, id, indent)),
    decreases id,
{
    if let NodeView::App(name, ids) = nodes[id as int] {
        let deeper = indent + PRETTY_INDENT_STEP as nat;
        let parts = shown_all(nodes, names, ids, id, deeper);
        assert forall|k: int| 0 <= k < parts.len() implies lays_out(#[trigger] parts[k]) by {
            if ids[k] < id {
                law_layout(nodes, names, ids[k], deeper);
            }
        }
        lemma_app_lays_out(name, parts, indent);
    }
}

/// Whether a term's layout shows what its single line shows.
pub open spec fn lays_out(printed: Printed) -> bool {
    &&& solid(printed.pretty) == solid(printed.inline)
    &&& !printed.pretty.contains('\n') ==> printed.pretty == printed.inline
}

proof fn lemma_app_lays_out(name: Seq<char>, parts: Seq<Printed>, indent: nat)
    requires
        forall|k: int| 0 <= k < parts.len() ==> lays_out(#[trigger] parts[k]),
    ensures
        lays_out(print_app(name, parts, indent)),
{
    let deeper = indent + PRETTY_INDENT_STEP as nat;
    let head = "("@ + name;
    lemma_parts_lay_out(parts, deeper);
    lemma_solid_sum(head, joined(parts));
    lemma_solid_sum(head + joined(parts), ")"@);
    lemma_solid_sum(head, stacked(parts, deeper));
    lemma_solid_sum(head + stacked(parts, deeper), ")"@);
    let text = stacked_app(name, parts, indent);
    if parts.len() == 0 {
        assert(text == inline_app(name, parts));
    } else {
        let i = choose|i: int| 0 <= i < stacked(parts, deeper).len() && stacked(parts, deeper)[i] == '\n';
        assert(text[head.len() + i] == '\n');
        assert(text.contains('\n'));
    }
}

proof fn lemma_parts_lay_out(parts: Seq<Printed>, indent: nat)
    requires
        forall|k: int| 0 <= k < parts.len() ==> lays_out(#[trigger] parts[k]),
    ensures
        solid(stacked(parts, indent)) == solid(joined(parts)),
        parts.len() > 0 ==> stacked(parts, indent).contains('\n'),
    decreases parts.len(),
{
    if parts.len() > 0 {
        let front = parts.drop_last();
        let last = parts.last();
        assert forall|k: int| 0 <= k < front.len() implies lays_out(#[trigger] front[k]) by {
            assert(front[k] == parts[k]);
        }
        lemma_parts_lay_out(front, indent);
        reveal_strlit(" ");
        reveal_strlit("\n");
        let lower = stacked(front, indent);
        let gap = "\n"@;
        assert(lays_out(parts[parts.len() - 1]));
        lemma_blank(" "@);
        lemma_blank(gap);
        lemma_blank(spaces(indent));
        lemma_solid_sum(joined(front), " "@);
        lemma_solid_sum(joined(front) + " "@, last.inline);
        lemma_solid_sum(lower, gap);
        lemma_solid_sum(lower + gap, spaces(indent));
        lemma_solid_sum(lower + gap + spaces(indent), last.pretty);
        assert(solid(joined(parts)) =~= solid(joined(front)) + solid(last.inline));
        assert(solid(stacked(parts, indent)) =~= solid(lower) + solid(last.pretty));
        assert(stacked(parts, indent)[lower.len() as int] == '\n');
    }
}

} // verus!
