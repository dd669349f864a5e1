//! How often terms are spelled out in what is printed, and how often their
//! names are used.

use vstd::prelude::*;

use crate::multi_extract::dag::{
    all_parts, children, law_parts_are_smaller, law_parts_of_parts, law_used_are_parts,
    lemma_occurs, lemma_parent, occurrences, ordered, reaches, references_below, tree_size, uses,
    NodeView,
};
use crate::multi_extract::laws::{law_named_are_shared, law_names_agree_on_parts};
use crate::multi_extract::line_breaks::word;
use crate::multi_extract::naming::{agree, has_name, law_names, named_once, names, shown, Named};
use crate::multi_extract::output::named_for;
use crate::multi_extract::render::MIN_SHARED_TERM_SIZE;
use crate::multi_extract::stats::printable;
use crate::multi_extract::tokens::{
    glued, law_definitions_can_be_put_back, law_inline_is_glued, names_are_new, put_back,
    law_tokens_by_names_of_parts, tokens_all, tokens_shown, tokens_spelled, Token,
};

verus! {

/// How often a term is spelled out.
pub open spec fn times_spelled(tokens: Seq<Token>, id: usize) -> nat
    decreases tokens.len(),
{
    if tokens.len() == 0 {
        0
    } else {
        times_spelled(tokens.drop_last(), id) + if tokens.last() matches Token::Term {
            id: own,
            ..
        } && own == id {
            1nat
        } else {
            0
        }
    }
}

/// How often a term is given by its name.
pub open spec fn times_named(tokens: Seq<Token>, id: usize) -> nat
    decreases tokens.len(),
{
    if tokens.len() == 0 {
        0
    } else {
        times_named(tokens.drop_last(), id) + if tokens.last() matches Token::Name {
            id: own,
            ..
        } && own == id {
            1nat
        } else {
            0
        }
    }
}

/// The pieces of all definitions, one after the other. Each uses the names that
/// were defined before it.
pub open spec fn definition_tokens(nodes: Seq<NodeView>, named: Seq<Named>) -> Seq<Token>
    decreases named.len(),
{
    if named.len() == 0 {
        Seq::empty()
    } else {
        let front = named.drop_last();
        definition_tokens(nodes, front) + tokens_spelled(
            nodes,
            names(nodes, front),
            named.last().id,
        )
    }
}

/// The pieces of all that is printed for `roots`: of the definitions, and then
/// of the terms themselves.
pub open spec fn printed_tokens(nodes: Seq<NodeView>, roots: Seq<usize>) -> Seq<Token> {
    let named = named_for(nodes, roots);
    definition_tokens(nodes, named) + tokens_all(
        nodes,
        names(nodes, named),
        roots,
        nodes.len() as usize,
    )
}

/// How often a term is a child of the terms that are spelled out.
spec fn child_uses(nodes: Seq<NodeView>, tokens: Seq<Token>, id: usize) -> nat
    decreases tokens.len(),
{
    if tokens.len() == 0 {
        0
    } else {
        child_uses(nodes, tokens.drop_last(), id) + match tokens.last() {
            Token::Term { id: own, .. } => occurrences(children(nodes, own), id),
            _ => 0,
        }
    }
}

/// The same, counted by the term that is spelled out.
spec fn child_uses_below(nodes: Seq<NodeView>, tokens: Seq<Token>, id: usize, bound: nat) -> nat
    decreases bound,
{
    if bound == 0 {
        0
    } else {
        let last = (bound - 1) as usize;
        child_uses_below(nodes, tokens, id, (bound - 1) as nat) + times_spelled(tokens, last)
            * occurrences(children(nodes, last), id)
    }
}

proof fn lemma_sums(nodes: Seq<NodeView>, one: Seq<Token>, other: Seq<Token>, id: usize)
    ensures
        times_spelled(one + other, id) == times_spelled(one, id) + times_spelled(other, id),
        times_named(one + other, id) == times_named(one, id) + times_named(other, id),
        child_uses(nodes, one + other, id) == child_uses(nodes, one, id) + child_uses(
            nodes,
            other,
            id,
        ),
    decreases other.len(),
{
    let all = one + other;
    if other.len() == 0 {
        assert(all =~= one);
    } else {
        assert(all.drop_last() =~= one + other.drop_last());
        lemma_sums(nodes, one, other.drop_last(), id);
    }
}

proof fn lemma_single(nodes: Seq<NodeView>, token: Token, id: usize)
    ensures
        times_spelled(seq![token], id) == (if token matches Token::Term { id: own, .. } && own
            == id {
            1nat
        } else {
            0
        }),
        times_named(seq![token], id) == (if token matches Token::Name { id: own, .. } && own
            == id {
            1nat
        } else {
            0
        }),
        child_uses(nodes, seq![token], id) == (match token {
            Token::Term { id: own, .. } => occurrences(children(nodes, own), id),
            _ => 0,
        }),
{
    reveal_with_fuel(times_spelled, 2);
    reveal_with_fuel(times_named, 2);
    reveal_with_fuel(child_uses, 2);
    assert(seq![token].drop_last() =~= Seq::empty());
}

/// In what is shown of a term, each use of a term, spelled out or by its name,
/// is the term's own or that of a child of what is spelled out.
proof fn lemma_balance(
    nodes: Seq<NodeView>,
    names: Map<usize, Seq<char>>,
    top: usize,
    id: usize,
)
    requires
        ordered(nodes),
        top < nodes.len(),
    ensures
        ({
            let own = if top == id {
                1nat
            } else {
                0
            };
            let whole = tokens_shown(nodes, names, top);
            let bare = tokens_spelled(nodes, names, top);
            &&& times_spelled(whole, id) + times_named(whole, id) == own + child_uses(
                nodes,
                whole,
                id,
            )
            &&& times_spelled(bare, id) + times_named(bare, id) == own + child_uses(nodes, bare, id)
        }),
    decreases top, children(nodes, top).len() + 2,
{
    let own = Token::Term { id: top, text: word(nodes[top as int]) };
    lemma_single(nodes, own, id);
    if names.contains_key(top) {
        lemma_single(nodes, Token::Name { id: top, text: names[top] }, id);
    }
    if let NodeView::App(_, ids) = nodes[top as int] {
        assert(ids == children(nodes, top));
        assert forall|k: int| 0 <= k < ids.len() implies #[trigger] ids[k] < top by {
            assert(children(nodes, top)[k] < top);
        }
        lemma_balance_all(nodes, names, ids, top, id);
        let inner = tokens_all(nodes, names, ids, top);
        lemma_single(nodes, Token::Open, id);
        lemma_single(nodes, Token::Close, id);
        lemma_sums(nodes, seq![Token::Open], seq![own], id);
        assert(seq![Token::Open] + seq![own] =~= seq![Token::Open, own]);
        lemma_sums(nodes, seq![Token::Open, own], inner, id);
        lemma_sums(nodes, seq![Token::Open, own] + inner, seq![Token::Close], id);
    } else {
        assert(occurrences(children(nodes, top), id) == 0);
    }
}

proof fn lemma_balance_all(
    nodes: Seq<NodeView>,
    names: Map<usize, Seq<char>>,
    ids: Seq<usize>,
    bound: usize,
    id: usize,
)
    requires
        ordered(nodes),
        bound <= nodes.len(),
        forall|k: int| 0 <= k < ids.len() ==> #[trigger] ids[k] < bound,
    ensures
        ({
            let all = tokens_all(nodes, names, ids, bound);
            times_spelled(all, id) + times_named(all, id) == occurrences(ids, id) + child_uses(
                nodes,
                all,
                id,
            )
        }),
    decreases bound, ids.len(),
{
    if ids.len() > 0 {
        let front = ids.drop_last();
        assert(ids[ids.len() - 1] < bound);
        assert forall|k: int| 0 <= k < front.len() implies #[trigger] front[k] < bound by {
            assert(front[k] == ids[k]);
        }
        lemma_balance_all(nodes, names, front, bound, id);
        lemma_balance(nodes, names, ids.last(), id);
        lemma_sums(
            nodes,
            tokens_all(nodes, names, front, bound),
            tokens_shown(nodes, names, ids.last()),
            id,
        );
    }
}

/// Only parts are spelled out or named. What has a name is spelled out nowhere
/// but as the term itself, and what has none is not named.
proof fn lemma_pieces(
    nodes: Seq<NodeView>,
    names: Map<usize, Seq<char>>,
    top: usize,
    id: usize,
)
    requires
        ordered(nodes),
        top < nodes.len(),
    ensures
        ({
            let whole = tokens_shown(nodes, names, top);
            let bare = tokens_spelled(nodes, names, top);
            &&& !reaches(nodes, top, id) ==> times_spelled(whole, id) == 0 && times_spelled(bare, id)
                == 0
            &&& names.contains_key(id) ==> times_spelled(whole, id) == 0
            &&& names.contains_key(id) ==> times_spelled(bare, id) == (if top == id {
                1nat
            } else {
                0
            })
            &&& !names.contains_key(id) ==> times_named(whole, id) == 0 && times_named(bare, id)
                == 0
        }),
    decreases top, children(nodes, top).len() + 2,
{
    let own = Token::Term { id: top, text: word(nodes[top as int]) };
    lemma_single(nodes, own, id);
    assert(reaches(nodes, top, top));
    if names.contains_key(top) {
        lemma_single(nodes, Token::Name { id: top, text: names[top] }, id);
    }
    if let NodeView::App(_, ids) = nodes[top as int] {
        assert(ids == children(nodes, top));
        assert forall|k: int| 0 <= k < ids.len() implies #[trigger] ids[k] < top by {
            assert(children(nodes, top)[k] < top);
        }
        lemma_pieces_of_all(nodes, names, ids, top, id);
        if all_parts(nodes, ids).contains(id) {
            let k = choose|k: int| 0 <= k < ids.len() && reaches(nodes, #[trigger] ids[k], id);
            assert(children(nodes, top)[k] < top);
            assert(reaches(nodes, top, id));
        }
        let inner = tokens_all(nodes, names, ids, top);
        lemma_single(nodes, Token::Open, id);
        lemma_single(nodes, Token::Close, id);
        lemma_sums(nodes, seq![Token::Open], seq![own], id);
        assert(seq![Token::Open] + seq![own] =~= seq![Token::Open, own]);
        lemma_sums(nodes, seq![Token::Open, own], inner, id);
        lemma_sums(nodes, seq![Token::Open, own] + inner, seq![Token::Close], id);
    }
}

proof fn lemma_pieces_of_all(
    nodes: Seq<NodeView>,
    names: Map<usize, Seq<char>>,
    ids: Seq<usize>,
    bound: usize,
    id: usize,
)
    requires
        ordered(nodes),
        bound <= nodes.len(),
        forall|k: int| 0 <= k < ids.len() ==> #[trigger] ids[k] < bound,
    ensures
        ({
            let all = tokens_all(nodes, names, ids, bound);
            &&& !all_parts(nodes, ids).contains(id) ==> times_spelled(all, id) == 0
            &&& names.contains_key(id) ==> times_spelled(all, id) == 0
            &&& !names.contains_key(id) ==> times_named(all, id) == 0
        }),
    decreases bound, ids.len(),
{
    if ids.len() > 0 {
        let front = ids.drop_last();
        assert(ids[ids.len() - 1] < bound);
        assert forall|k: int| 0 <= k < front.len() implies #[trigger] front[k] < bound by {
            assert(front[k] == ids[k]);
        }
        lemma_pieces_of_all(nodes, names, front, bound, id);
        lemma_pieces(nodes, names, ids.last(), id);
        if all_parts(nodes, front).contains(id) {
            let k = choose|k: int| 0 <= k < front.len() && reaches(nodes, #[trigger] front[k], id);
            assert(reaches(nodes, ids[k], id));
        }
        if reaches(nodes, ids.last(), id) {
            assert(reaches(nodes, ids[ids.len() - 1], id));
        }
        lemma_sums(
            nodes,
            tokens_all(nodes, names, front, bound),
            tokens_shown(nodes, names, ids.last()),
            id,
        );
    }
}

/// The pieces of all definitions, with all the names at hand.
spec fn definition_tokens_with(
    nodes: Seq<NodeView>,
    names: Map<usize, Seq<char>>,
    named: Seq<Named>,
) -> Seq<Token>
    decreases named.len(),
{
    if named.len() == 0 {
        Seq::empty()
    } else {
        definition_tokens_with(nodes, names, named.drop_last()) + tokens_spelled(
            nodes,
            names,
            named.last().id,
        )
    }
}

proof fn lemma_definitions_with_all_names(nodes: Seq<NodeView>, roots: Seq<usize>, k: int)
    requires
        printable(nodes, roots),
        0 <= k <= named_for(nodes, roots).len(),
    ensures
        definition_tokens(nodes, named_for(nodes, roots).take(k)) == definition_tokens_with(
            nodes,
            names(nodes, named_for(nodes, roots)),
            named_for(nodes, roots).take(k),
        ),
    decreases k,
{
    if k > 0 {
        let named = named_for(nodes, roots);
        let id = named[k - 1].id;
        assert(named.take(k).drop_last() =~= named.take(k - 1));
        lemma_definitions_with_all_names(nodes, roots, k - 1);
        assert forall|part: usize| #[trigger] reaches(nodes, id, part) && part != id implies agree(
            names(nodes, named.take(k - 1)),
            names(nodes, named),
            part,
        ) by {
            law_names_agree_on_parts(nodes, roots, k - 1, part);
        }
        law_tokens_by_names_of_parts(
            nodes,
            names(nodes, named.take(k - 1)),
            names(nodes, named),
            id,
        );
    }
}

/// How often a term has a name.
spec fn times_given(named: Seq<Named>, id: usize) -> nat
    decreases named.len(),
{
    if named.len() == 0 {
        0
    } else {
        times_given(named.drop_last(), id) + if named.last().id == id {
            1nat
        } else {
            0
        }
    }
}

proof fn lemma_given_once(named: Seq<Named>, id: usize)
    requires
        named_once(named),
    ensures
        times_given(named, id) == if has_name(named, id) {
            1nat
        } else {
            0
        },
    decreases named.len(),
{
    if named.len() > 0 {
        let front = named.drop_last();
        assert forall|i: int, j: int| 0 <= i < j < front.len() implies (#[trigger] front[i]).id != (
        #[trigger] front[j]).id by {
            assert(named[i].id != named[j].id);
        }
        lemma_given_once(front, id);
        if has_name(front, id) {
            let i = choose|i: int| 0 <= i < front.len() && (#[trigger] front[i]).id == id;
            assert(named[i].id == id);
            assert(named[i].id != named[named.len() - 1].id);
        }
        if has_name(named, id) && named.last().id != id {
            let i = choose|i: int| 0 <= i < named.len() && (#[trigger] named[i]).id == id;
            assert(front[i].id == id);
        }
        if named.last().id == id {
            assert(named[named.len() - 1].id == id);
        }
    }
}

proof fn lemma_definitions(
    nodes: Seq<NodeView>,
    names: Map<usize, Seq<char>>,
    named: Seq<Named>,
    id: usize,
)
    requires
        ordered(nodes),
        forall|i: int| 0 <= i < named.len() ==> (#[trigger] named[i]).id < nodes.len(),
    ensures
        ({
            let all = definition_tokens_with(nodes, names, named);
            &&& times_spelled(all, id) + times_named(all, id) == times_given(named, id)
                + child_uses(nodes, all, id)
            &&& names.contains_key(id) ==> times_spelled(all, id) == times_given(named, id)
            &&& !names.contains_key(id) ==> times_named(all, id) == 0
            &&& times_spelled(all, id) > 0 ==> exists|i: int|
                0 <= i < named.len() && reaches(nodes, (#[trigger] named[i]).id, id)
        }),
    decreases named.len(),
{
    if named.len() > 0 {
        let front = named.drop_last();
        let last = named.last().id;
        assert(named[named.len() - 1].id < nodes.len());
        assert forall|i: int| 0 <= i < front.len() implies (#[trigger] front[i]).id
            < nodes.len() by {
            assert(front[i] == named[i]);
        }
        lemma_definitions(nodes, names, front, id);
        lemma_balance(nodes, names, last, id);
        lemma_pieces(nodes, names, last, id);
        let before = definition_tokens_with(nodes, names, front);
        let more = tokens_spelled(nodes, names, last);
        lemma_sums(nodes, before, more, id);
        if times_spelled(before, id) > 0 {
            let i = choose|i: int|
                0 <= i < front.len() && reaches(nodes, (#[trigger] front[i]).id, id);
            assert(reaches(nodes, named[i].id, id));
        }
        if times_spelled(more, id) > 0 {
            assert(reaches(nodes, named[named.len() - 1].id, id));
        }
    }
}

/// What holds of the pieces of all that is printed, for one term.
proof fn lemma_printed(nodes: Seq<NodeView>, roots: Seq<usize>, id: usize)
    requires
        printable(nodes, roots),
    ensures
        ({
            let all = printed_tokens(nodes, roots);
            let is_named = has_name(named_for(nodes, roots), id);
            &&& is_named ==> times_spelled(all, id) == 1 && times_named(all, id) == occurrences(
                roots,
                id,
            ) + child_uses(nodes, all, id)
            &&& !is_named ==> times_named(all, id) == 0 && times_spelled(all, id) == occurrences(
                roots,
                id,
            ) + child_uses(nodes, all, id)
            &&& times_spelled(all, id) > 0 ==> all_parts(nodes, roots).contains(id)
        }),
{
    let named = named_for(nodes, roots);
    let given = names(nodes, named);
    let bound = nodes.len() as usize;
    law_named_are_shared(nodes, roots);
    law_names(nodes, named);
    assert(named.take(named.len() as int) =~= named);
    lemma_definitions_with_all_names(nodes, roots, named.len() as int);
    assert forall|k: int| 0 <= k < roots.len() implies #[trigger] roots[k] < nodes.len() by {}
    assert forall|i: int| 0 <= i < named.len() implies (#[trigger] named[i]).id < nodes.len()
        && all_parts(nodes, roots).contains(named[i].id) by {
        assert(has_name(named, named[i].id));
        lemma_used_is_part(nodes, roots, named[i].id);
    }
    lemma_definitions(nodes, given, named, id);
    lemma_balance_all(nodes, given, roots, bound, id);
    lemma_pieces_of_all(nodes, given, roots, bound, id);
    lemma_given_once(named, id);
    let first = definition_tokens(nodes, named);
    let second = tokens_all(nodes, given, roots, bound);
    lemma_sums(nodes, first, second, id);
    if times_spelled(first, id) > 0 {
        let i = choose|i: int| 0 <= i < named.len() && reaches(nodes, (#[trigger] named[i]).id, id);
        let k = choose|k: int|
            0 <= k < roots.len() && reaches(nodes, #[trigger] roots[k], named[i].id);
        law_parts_of_parts(nodes, roots[k], named[i].id, id);
    }
}

proof fn lemma_used_is_part(nodes: Seq<NodeView>, roots: Seq<usize>, id: usize)
    requires
        printable(nodes, roots),
        uses(nodes, roots, id) > 0,
    ensures
        id < nodes.len(),
        all_parts(nodes, roots).contains(id),
{
    law_used_are_parts(nodes, roots, id);
    let k = choose|k: int| 0 <= k < roots.len() && reaches(nodes, #[trigger] roots[k], id);
    law_parts_are_smaller(nodes, roots[k], id);
}

/// Counting by the terms that are spelled out.
proof fn lemma_by_parent(nodes: Seq<NodeView>, tokens: Seq<Token>, id: usize, bound: nat)
    requires
        bound <= usize::MAX,
        forall|own: usize| #[trigger] times_spelled(tokens, own) > 0 ==> own < bound,
    ensures
        child_uses(nodes, tokens, id) == child_uses_below(nodes, tokens, id, bound),
    decreases tokens.len(),
{
    if tokens.len() == 0 {
        lemma_nothing_spelled(nodes, tokens, id, bound);
    } else {
        let front = tokens.drop_last();
        assert forall|own: usize| #[trigger] times_spelled(front, own) > 0 implies own < bound by {
            assert(times_spelled(tokens, own) > 0);
        }
        lemma_by_parent(nodes, front, id, bound);
        if let Token::Term { id: own, .. } = tokens.last() {
            assert(times_spelled(tokens, own) > 0);
        }
        lemma_one_more(nodes, tokens, id, bound);
    }
}

proof fn lemma_nothing_spelled(nodes: Seq<NodeView>, tokens: Seq<Token>, id: usize, bound: nat)
    requires
        tokens.len() == 0,
    ensures
        child_uses_below(nodes, tokens, id, bound) == 0,
    decreases bound,
{
    if bound > 0 {
        lemma_nothing_spelled(nodes, tokens, id, (bound - 1) as nat);
        let each = occurrences(children(nodes, (bound - 1) as usize), id);
        assert(0nat * each == 0);
    }
}

proof fn lemma_one_more(nodes: Seq<NodeView>, tokens: Seq<Token>, id: usize, bound: nat)
    requires
        tokens.len() > 0,
        bound <= usize::MAX,
    ensures
        child_uses_below(nodes, tokens, id, bound) == child_uses_below(
            nodes,
            tokens.drop_last(),
            id,
            bound,
        ) + (match tokens.last() {
            Token::Term { id: own, .. } => if own < bound {
                occurrences(children(nodes, own), id)
            } else {
                0
            },
            _ => 0,
        }),
    decreases bound,
{
    if bound > 0 {
        lemma_one_more(nodes, tokens, id, (bound - 1) as nat);
        let last = (bound - 1) as usize;
        let each = occurrences(children(nodes, last), id);
        let before = times_spelled(tokens.drop_last(), last);
        assert((before + 1) * each == before * each + each) by (nonlinear_arith);
    }
}

/// Where all parts are spelled out, their children are used at least as often
/// as they refer to them.
proof fn lemma_at_least(
    nodes: Seq<NodeView>,
    tokens: Seq<Token>,
    from: Set<usize>,
    id: usize,
    bound: nat,
)
    requires
        bound <= usize::MAX,
        forall|own: usize| #[trigger] from.contains(own) ==> times_spelled(tokens, own) >= 1,
    ensures
        child_uses_below(nodes, tokens, id, bound) >= references_below(nodes, from, id, bound),
    decreases bound,
{
    if bound > 0 {
        lemma_at_least(nodes, tokens, from, id, (bound - 1) as nat);
        let last = (bound - 1) as usize;
        let each = occurrences(children(nodes, last), id);
        let times = times_spelled(tokens, last);
        if from.contains(last) {
            assert(times * each >= each) by (nonlinear_arith)
                requires
                    times >= 1,
            ;
        } else {
            assert(times * each >= 0) by (nonlinear_arith);
        }
    }
}

/// Where the terms that refer to a term are spelled out no more than once, it is
/// used no more often than they refer to it.
proof fn lemma_at_most(
    nodes: Seq<NodeView>,
    tokens: Seq<Token>,
    from: Set<usize>,
    id: usize,
    bound: nat,
)
    requires
        bound <= usize::MAX,
        forall|own: usize|
            #![trigger times_spelled(tokens, own)]
            own < bound && occurrences(children(nodes, own), id) > 0 ==> times_spelled(tokens, own)
                <= 1,
        forall|own: usize| #[trigger] times_spelled(tokens, own) > 0 ==> from.contains(own),
    ensures
        child_uses_below(nodes, tokens, id, bound) <= references_below(nodes, from, id, bound),
    decreases bound,
{
    if bound > 0 {
        lemma_at_most(nodes, tokens, from, id, (bound - 1) as nat);
        let last = (bound - 1) as usize;
        let each = occurrences(children(nodes, last), id);
        let times = times_spelled(tokens, last);
        if each == 0 {
            assert(times * each == 0) by (nonlinear_arith)
                requires
                    each == 0,
            ;
        } else if times == 0 {
            assert(times * each == 0) by (nonlinear_arith)
                requires
                    times == 0,
            ;
        } else {
            assert(times == 1);
            assert(times * each == each) by (nonlinear_arith)
                requires
                    times == 1,
            ;
        }
    }
}

/// Every part is spelled out somewhere.
pub proof fn law_every_part_is_spelled_out(nodes: Seq<NodeView>, roots: Seq<usize>, id: usize)
    requires
        printable(nodes, roots),
        all_parts(nodes, roots).contains(id),
    ensures
        times_spelled(printed_tokens(nodes, roots), id) >= 1,
    decreases nodes.len() - id,
{
    let all = printed_tokens(nodes, roots);
    let whole = all_parts(nodes, roots);
    lemma_printed(nodes, roots, id);
    lemma_parts_below(nodes, roots, id);
    if !has_name(named_for(nodes, roots), id) && !roots.contains(id) {
        let k = choose|k: int| 0 <= k < roots.len() && reaches(nodes, #[trigger] roots[k], id);
        assert(roots[k] != id);
        let parent = lemma_parent(nodes, roots[k], id);
        assert(whole.contains(parent));
        lemma_parts_below(nodes, roots, parent);
        let j = choose|j: int|
            0 <= j < children(nodes, parent).len() && children(nodes, parent)[j] == id;
        assert(children(nodes, parent)[j] < parent);
        law_every_part_is_spelled_out(nodes, roots, parent);
        lemma_occurs(children(nodes, parent), id);
        lemma_child_is_used(nodes, all, parent, id);
    } else if !has_name(named_for(nodes, roots), id) {
        lemma_occurs(roots, id);
    }
}

proof fn lemma_parts_below(nodes: Seq<NodeView>, roots: Seq<usize>, id: usize)
    requires
        printable(nodes, roots),
        all_parts(nodes, roots).contains(id),
    ensures
        id < nodes.len(),
{
    let k = choose|k: int| 0 <= k < roots.len() && reaches(nodes, #[trigger] roots[k], id);
    law_parts_are_smaller(nodes, roots[k], id);
}

proof fn lemma_child_is_used(nodes: Seq<NodeView>, tokens: Seq<Token>, parent: usize, id: usize)
    requires
        times_spelled(tokens, parent) >= 1,
        occurrences(children(nodes, parent), id) >= 1,
    ensures
        child_uses(nodes, tokens, id) >= 1,
    decreases tokens.len(),
{
    if times_spelled(tokens.drop_last(), parent) >= 1 {
        lemma_child_is_used(nodes, tokens.drop_last(), parent, id);
    }
}

/// Sharing is complete: no term that is large enough to get a name is spelled
/// out more than once in all that is printed.
pub proof fn law_spelled_out_once(nodes: Seq<NodeView>, roots: Seq<usize>, id: usize)
    requires
        printable(nodes, roots),
        tree_size(nodes, id) >= MIN_SHARED_TERM_SIZE,
    ensures
        times_spelled(printed_tokens(nodes, roots), id) <= 1,
    decreases nodes.len() - id,
{
    let all = printed_tokens(nodes, roots);
    let whole = all_parts(nodes, roots);
    lemma_printed(nodes, roots, id);
    if !has_name(named_for(nodes, roots), id) && times_spelled(all, id) > 0 {
        lemma_parts_below(nodes, roots, id);
        law_named_are_shared(nodes, roots);
        assert(uses(nodes, roots, id) <= 1);
        assert forall|own: usize| #[trigger] times_spelled(all, own) > 0 implies whole.contains(own)
            && own < nodes.len() by {
            lemma_printed(nodes, roots, own);
            lemma_parts_below(nodes, roots, own);
        }
        assert forall|own: usize|
            #![trigger times_spelled(all, own)]
            own < nodes.len() && occurrences(children(nodes, own), id) > 0 implies times_spelled(
            all,
            own,
        ) <= 1 by {
            lemma_occurs(children(nodes, own), id);
            let j = choose|j: int|
                0 <= j < children(nodes, own).len() && children(nodes, own)[j] == id;
            assert(children(nodes, own)[j] < own);
            assert(reaches(nodes, id, id));
            assert(reaches(nodes, own, id));
            law_parts_are_smaller(nodes, own, id);
            law_spelled_out_once(nodes, roots, own);
        }
        lemma_by_parent(nodes, all, id, nodes.len());
        lemma_at_most(nodes, all, whole, id, nodes.len());
    }
}

/// Sharing is never idle: a name is used at least twice, and only behind its
/// definition.
pub proof fn law_names_are_used(nodes: Seq<NodeView>, roots: Seq<usize>, i: int)
    requires
        printable(nodes, roots),
        0 <= i < named_for(nodes, roots).len(),
    ensures
        ({
            let named = named_for(nodes, roots);
            let defined = definition_tokens(nodes, named.take(i + 1));
            let all = printed_tokens(nodes, roots);
            &&& defined.is_prefix_of(all)
            &&& times_named(defined, named[i].id) == 0
            &&& times_named(all, named[i].id) >= 2
        }),
{
    let named = named_for(nodes, roots);
    let id = named[i].id;
    let all = printed_tokens(nodes, roots);
    let whole = all_parts(nodes, roots);
    law_named_are_shared(nodes, roots);
    assert(has_name(named, id));
    lemma_printed(nodes, roots, id);
    assert forall|own: usize| #[trigger] whole.contains(own) implies times_spelled(all, own)
        >= 1 by {
        law_every_part_is_spelled_out(nodes, roots, own);
    }
    assert forall|own: usize| #[trigger] times_spelled(all, own) > 0 implies own < nodes.len() by {
        lemma_printed(nodes, roots, own);
        lemma_parts_below(nodes, roots, own);
    }
    lemma_by_parent(nodes, all, id, nodes.len());
    lemma_at_least(nodes, all, whole, id, nodes.len());
    lemma_not_used_before(nodes, roots, i, i + 1);
    lemma_definitions_first(nodes, named, i + 1);
    let defined = definition_tokens(nodes, named.take(i + 1));
    let every = definition_tokens(nodes, named);
    assert(defined =~= every.take(defined.len() as int));
    assert(every =~= all.take(every.len() as int));
    assert(defined =~= all.take(defined.len() as int));
}

proof fn lemma_definitions_first(nodes: Seq<NodeView>, named: Seq<Named>, k: int)
    requires
        0 <= k <= named.len(),
    ensures
        definition_tokens(nodes, named.take(k)).is_prefix_of(definition_tokens(nodes, named)),
    decreases named.len() - k,
{
    let some = definition_tokens(nodes, named.take(k));
    let every = definition_tokens(nodes, named);
    if k < named.len() {
        lemma_definitions_first(nodes, named, k + 1);
        let more = definition_tokens(nodes, named.take(k + 1));
        assert(named.take(k + 1).drop_last() =~= named.take(k));
        assert(some =~= more.take(some.len() as int));
        assert(more =~= every.take(more.len() as int));
        assert(some =~= every.take(some.len() as int));
    } else {
        assert(named.take(k) =~= named);
        assert(some =~= every.take(some.len() as int));
    }
}

proof fn lemma_not_used_before(nodes: Seq<NodeView>, roots: Seq<usize>, i: int, k: int)
    requires
        printable(nodes, roots),
        0 <= i < named_for(nodes, roots).len(),
        0 <= k <= i + 1,
    ensures
        times_named(
            definition_tokens(nodes, named_for(nodes, roots).take(k)),
            named_for(nodes, roots)[i].id,
        ) == 0,
    decreases k,
{
    if k > 0 {
        let named = named_for(nodes, roots);
        let id = named[i].id;
        let front = named.take(k - 1);
        let own = named[k - 1].id;
        lemma_not_used_before(nodes, roots, i, k - 1);
        assert(named.take(k).drop_last() =~= front);
        law_named_are_shared(nodes, roots);
        assert forall|a: int, b: int| 0 <= a < b < front.len() implies (#[trigger] front[a]).id != (
        #[trigger] front[b]).id by {
            assert(named[a].id != named[b].id);
        }
        law_names(nodes, front);
        if has_name(front, id) {
            let a = choose|a: int| 0 <= a < front.len() && (#[trigger] front[a]).id == id;
            assert(named[a].id != named[i].id);
        }
        assert(has_name(named, own));
        lemma_used_is_part(nodes, roots, own);
        lemma_pieces(nodes, names(nodes, front), own, id);
        lemma_sums(
            nodes,
            definition_tokens(nodes, front),
            tokens_spelled(nodes, names(nodes, front), own),
            id,
        );
    }
}

/// The terms that are printed can be had back: replacing the names in each by
/// what they are defined as, the last first, gives the term written out in full,
/// unless a name is given twice or is a word of the term itself.
pub proof fn law_terms_can_be_had_back(
    nodes: Seq<NodeView>,
    roots: Seq<usize>,
    k: int,
    indent: nat,
)
    requires
        printable(nodes, roots),
        0 <= k < roots.len(),
        names_are_new(nodes, names(nodes, named_for(nodes, roots)), roots[k]),
    ensures
        ({
            let named = named_for(nodes, roots);
            let tokens = tokens_shown(nodes, names(nodes, named), roots[k]);
            &&& glued(tokens) == shown(nodes, names(nodes, named), roots[k], indent).inline
            &&& glued(put_back(nodes, named, tokens)) == shown(
                nodes,
                Map::empty(),
                roots[k],
                indent,
            ).inline
        }),
{
    let named = named_for(nodes, roots);
    law_named_are_shared(nodes, roots);
    law_definitions_can_be_put_back(nodes, named, roots[k]);
    law_inline_is_glued(nodes, names(nodes, named), roots[k], indent);
    law_inline_is_glued(nodes, Map::empty(), roots[k], indent);
}

} // verus!
