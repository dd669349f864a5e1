//! What printed terms consist of, and how names are put back.

use vstd::prelude::*;

use crate::multi_extract::binding::PRETTY_INDENT_STEP;
use crate::multi_extract::dag::{
    children, law_parts_are_smaller, law_parts_of_parts, reaches, NodeView,
};
use crate::multi_extract::layout::{inline_app, joined, Printed};
use crate::multi_extract::line_breaks::word;
use crate::multi_extract::naming::{
    agree, has_name, law_names, named_once, names, shown, shown_all, spelled, Named,
};

verus! {

/// A piece of a printed term.
pub enum Token {
    /// An opening bracket.
    Open,
    /// A closing bracket.
    Close,
    /// What a term that is spelled out says of itself.
    Term { id: usize, text: Seq<char> },
    /// The name of a term, in the place of the term.
    Name { id: usize, text: Seq<char> },
}

impl Token {
    /// What is printed for the piece.
    pub open spec fn text(self) -> Seq<char> {
        match self {
            Token::Open => "("@,
            Token::Close => ")"@,
            Token::Term { text, .. } => text,
            Token::Name { text, .. } => text,
        }
    }

    /// Whether the piece is a word, and which.
    pub open spec fn is_word(self, word: Seq<char>) -> bool {
        match self {
            Token::Term { text, .. } => text == word,
            Token::Name { text, .. } => text == word,
            _ => false,
        }
    }
}

/// The pieces of a term, with the names at hand.
pub open spec fn tokens_shown(
    nodes: Seq<NodeView>,
    names: Map<usize, Seq<char>>,
    id: usize,
) -> Seq<Token>
    decreases id, children(nodes, id).len() + 2,
{
    if names.contains_key(id) {
        seq![Token::Name { id, text: names[id] }]
    } else {
        tokens_spelled(nodes, names, id)
    }
}

/// The pieces of a term that is not itself given by a name, though its parts
/// may be.
pub open spec fn tokens_spelled(
    nodes: Seq<NodeView>,
    names: Map<usize, Seq<char>>,
    id: usize,
) -> Seq<Token>
    decreases id, children(nodes, id).len() + 1,
{
    let own = Token::Term { id, text: word(nodes[id as int]) };
    match nodes[id as int] {
        NodeView::App(_, ids) => seq![Token::Open, own] + tokens_all(nodes, names, ids, id)
            + seq![Token::Close],
        _ => seq![own],
    }
}

/// The pieces of terms, one term after the other. Those with numbers not below
/// `bound` leave an empty piece.
pub open spec fn tokens_all(
    nodes: Seq<NodeView>,
    names: Map<usize, Seq<char>>,
    ids: Seq<usize>,
    bound: usize,
) -> Seq<Token>
    decreases bound, ids.len(),
{
    if ids.len() == 0 {
        Seq::empty()
    } else {
        tokens_all(nodes, names, ids.drop_last(), bound) + if ids.last() < bound {
            tokens_shown(nodes, names, ids.last())
        } else {
            seq![Token::Term { id: ids.last(), text: Seq::empty() }]
        }
    }
}

/// Whether a space stands between two pieces.
pub open spec fn apart(one: Token, other: Token) -> bool {
    !(one is Open) && !(other is Close)
}

/// Pieces on one line: a space between each two, but for one behind an opening
/// bracket or before a closing one.
pub open spec fn glued(tokens: Seq<Token>) -> Seq<char>
    decreases tokens.len(),
{
    if tokens.len() == 0 {
        Seq::empty()
    } else {
        let front = tokens.drop_last();
        glued(front) + (if front.len() > 0 && apart(front.last(), tokens.last()) {
            " "@
        } else {
            Seq::empty()
        }) + tokens.last().text()
    }
}

proof fn lemma_glued_one(token: Token)
    ensures
        glued(seq![token]) == token.text(),
{
    reveal_with_fuel(glued, 2);
    assert(seq![token].drop_last() =~= Seq::empty());
    assert(glued(seq![token]) =~= token.text());
}

proof fn lemma_glued_sum(one: Seq<Token>, other: Seq<Token>)
    requires
        one.len() > 0,
        other.len() > 0,
    ensures
        glued(one + other) == glued(one) + (if apart(one.last(), other[0]) {
            " "@
        } else {
            Seq::empty()
        }) + glued(other),
    decreases other.len(),
{
    let all = one + other;
    let front = other.drop_last();
    assert(all.drop_last() =~= one + front);
    assert(all.last() == other.last());
    if front.len() == 0 {
        assert(one + front =~= one);
        assert(glued(front) =~= Seq::<char>::empty());
        assert(glued(other) =~= other.last().text());
        assert(other[0] == other.last());
    } else {
        lemma_glued_sum(one, front);
        assert((one + front).last() == front.last());
        assert(front[0] == other[0]);
    }
    assert(glued(all) =~= glued(one) + (if apart(one.last(), other[0]) {
        " "@
    } else {
        Seq::empty()
    }) + glued(other));
}

/// A term on one line consists of its pieces.
pub proof fn law_inline_is_glued(
    nodes: Seq<NodeView>,
    names: Map<usize, Seq<char>>,
    id: usize,
    indent: nat,
)
    ensures
        shown(nodes, names, id, indent).inline == glued(tokens_shown(nodes, names, id)),
        spelled(nodes, names, id, indent).inline == glued(tokens_spelled(nodes, names, id)),
    decreases id, children(nodes, id).len() + 2,
{
    assert forall|token: Token| #[trigger] glued(seq![token]) == token.text() by {
        lemma_glued_one(token);
    }
    match nodes[id as int] {
        NodeView::App(name, ids) => {
            let deeper = indent + PRETTY_INDENT_STEP as nat;
            let parts = shown_all(nodes, names, ids, id, deeper);
            let own = Token::Term { id, text: name };
            let head = seq![Token::Open, own];
            assert(glued(head) =~= "("@ + name) by {
                lemma_glued_sum(seq![Token::Open], seq![own]);
                assert(seq![Token::Open] + seq![own] =~= head);
            }
            lemma_parts_are_glued(nodes, names, ids, id, deeper, head, parts);
            let front = head + tokens_all(nodes, names, ids, id);
            lemma_glued_sum(front, seq![Token::Close]);
            assert(glued(tokens_spelled(nodes, names, id)) =~= inline_app(name, parts));
        },
        _ => {},
    }
}

proof fn lemma_parts_are_glued(
    nodes: Seq<NodeView>,
    names: Map<usize, Seq<char>>,
    ids: Seq<usize>,
    bound: usize,
    indent: nat,
    head: Seq<Token>,
    parts: Seq<Printed>,
)
    requires
        head.len() > 0,
        !(head.last() is Open),
        parts == shown_all(nodes, names, ids, bound, indent),
    ensures
        glued(head + tokens_all(nodes, names, ids, bound)) == glued(head) + joined(parts),
        !((head + tokens_all(nodes, names, ids, bound)).last() is Open),
    decreases bound, ids.len(),
{
    if ids.len() == 0 {
        assert(head + tokens_all(nodes, names, ids, bound) =~= head);
        assert(glued(head) + joined(parts) =~= glued(head));
    } else {
        let front = ids.drop_last();
        let last = ids.last();
        let before = shown_all(nodes, names, front, bound, indent);
        assert(parts.drop_last() =~= before);
        lemma_parts_are_glued(nodes, names, front, bound, indent, head, before);
        let so_far = head + tokens_all(nodes, names, front, bound);
        let more = if last < bound {
            tokens_shown(nodes, names, last)
        } else {
            seq![Token::Term { id: last, text: Seq::empty() }]
        };
        assert(head + tokens_all(nodes, names, ids, bound) =~= so_far + more);
        if last < bound {
            law_inline_is_glued(nodes, names, last, indent);
        } else {
            lemma_glued_one(more[0]);
            assert(more =~= seq![more[0]]);
        }
        lemma_ends(nodes, names, last);
        lemma_glued_sum(so_far, more);
        assert(parts.last().inline == glued(more));
        assert(glued(so_far + more) =~= glued(head) + joined(parts));
    }
}

/// A term's pieces start with no closing bracket and end with no opening one.
proof fn lemma_ends(nodes: Seq<NodeView>, names: Map<usize, Seq<char>>, id: usize)
    ensures
        tokens_shown(nodes, names, id).len() > 0,
        !(tokens_shown(nodes, names, id)[0] is Close),
        !(tokens_shown(nodes, names, id).last() is Open),
{
}

/// The pieces of a term depend on the names of its parts alone.
pub proof fn law_tokens_by_names_of_parts(
    nodes: Seq<NodeView>,
    some: Map<usize, Seq<char>>,
    other: Map<usize, Seq<char>>,
    id: usize,
)
    requires
        forall|part: usize| #[trigger] reaches(nodes, id, part) && part != id ==> agree(
            some,
            other,
            part,
        ),
    ensures
        tokens_spelled(nodes, some, id) == tokens_spelled(nodes, other, id),
        agree(some, other, id) ==> tokens_shown(nodes, some, id) == tokens_shown(nodes, other, id),
    decreases id, children(nodes, id).len() + 2,
{
    if let NodeView::App(_, ids) = nodes[id as int] {
        assert forall|k: int, part: usize|
            #![trigger ids[k], reaches(nodes, ids[k], part)]
            0 <= k < ids.len() && ids[k] < id && reaches(nodes, ids[k], part) implies agree(
            some,
            other,
            part,
        ) by {
            assert(children(nodes, id)[k] < id);
            law_parts_are_smaller(nodes, ids[k], part);
            assert(reaches(nodes, id, part));
        }
        lemma_tokens_of_all(nodes, some, other, ids, id);
    }
}

proof fn lemma_tokens_of_all(
    nodes: Seq<NodeView>,
    some: Map<usize, Seq<char>>,
    other: Map<usize, Seq<char>>,
    ids: Seq<usize>,
    bound: usize,
)
    requires
        forall|k: int, part: usize|
            #![trigger ids[k], reaches(nodes, ids[k], part)]
            0 <= k < ids.len() && ids[k] < bound && reaches(nodes, ids[k], part) ==> agree(
                some,
                other,
                part,
            ),
    ensures
        tokens_all(nodes, some, ids, bound) == tokens_all(nodes, other, ids, bound),
    decreases bound, ids.len(),
{
    if ids.len() > 0 {
        let front = ids.drop_last();
        let last = ids.last();
        assert(last == ids[ids.len() - 1]);
        assert forall|k: int, part: usize|
            #![trigger front[k], reaches(nodes, front[k], part)]
            0 <= k < front.len() && front[k] < bound && reaches(nodes, front[k], part) implies agree(
            some,
            other,
            part,
        ) by {
            assert(front[k] == ids[k]);
            assert(reaches(nodes, ids[k], part));
        }
        lemma_tokens_of_all(nodes, some, other, front, bound);
        if last < bound {
            assert forall|part: usize| #[trigger] reaches(nodes, last, part) implies agree(
                some,
                other,
                part,
            ) by {
                assert(reaches(nodes, ids[ids.len() - 1], part));
            }
            assert(reaches(nodes, last, last));
            law_tokens_by_names_of_parts(nodes, some, other, last);
        }
    }
}

/// Pieces in which a word is replaced by other pieces.
pub open spec fn replaced(tokens: Seq<Token>, word: Seq<char>, body: Seq<Token>) -> Seq<Token>
    decreases tokens.len(),
{
    if tokens.len() == 0 {
        Seq::empty()
    } else {
        replaced(tokens.drop_last(), word, body) + if tokens.last().is_word(word) {
            body
        } else {
            seq![tokens.last()]
        }
    }
}

/// Pieces in which the names are replaced by what they are defined as, the name
/// that was defined last first.
pub open spec fn put_back(
    nodes: Seq<NodeView>,
    named: Seq<Named>,
    tokens: Seq<Token>,
) -> Seq<Token>
    decreases named.len(),
{
    if named.len() == 0 {
        tokens
    } else {
        let front = named.drop_last();
        let last = named.last().id;
        put_back(
            nodes,
            front,
            replaced(
                tokens,
                names(nodes, named)[last],
                tokens_spelled(nodes, names(nodes, front), last),
            ),
        )
    }
}

/// Whether no name is given twice, and none is a word of the term `id` or of its
/// parts.
pub open spec fn names_are_new(
    nodes: Seq<NodeView>,
    names: Map<usize, Seq<char>>,
    id: usize,
) -> bool {
    &&& forall|one: usize, other: usize|
        #![trigger names[one], names[other]]
        names.contains_key(one) && names.contains_key(other) && one != other ==> names[one]
            != names[other]
    &&& forall|one: usize, part: usize|
        #![trigger names[one], reaches(nodes, id, part)]
        names.contains_key(one) && reaches(nodes, id, part) ==> names[one] != word(
            nodes[part as int],
        )
}

proof fn lemma_replaced_sum(one: Seq<Token>, other: Seq<Token>, word: Seq<char>, body: Seq<Token>)
    ensures
        replaced(one + other, word, body) == replaced(one, word, body) + replaced(
            other,
            word,
            body,
        ),
    decreases other.len(),
{
    let all = one + other;
    if other.len() == 0 {
        assert(all =~= one);
        assert(replaced(one, word, body) + replaced(other, word, body) =~= replaced(
            one,
            word,
            body,
        ));
    } else {
        assert(all.drop_last() =~= one + other.drop_last());
        lemma_replaced_sum(one, other.drop_last(), word, body);
        assert(replaced(all, word, body) =~= replaced(one, word, body) + replaced(
            other,
            word,
            body,
        ));
    }
}

proof fn lemma_replaced_one(token: Token, word: Seq<char>, body: Seq<Token>)
    ensures
        replaced(seq![token], word, body) == if token.is_word(word) {
            body
        } else {
            seq![token]
        },
{
    reveal_with_fuel(replaced, 2);
    assert(seq![token].drop_last() =~= Seq::empty());
    assert(replaced(seq![token], word, body) =~= if token.is_word(word) {
        body
    } else {
        seq![token]
    });
}

/// Replacing the name that was defined last.
proof fn lemma_replace_last(nodes: Seq<NodeView>, named: Seq<Named>, id: usize)
    requires
        named.len() > 0,
        named_once(named),
        names_are_new(nodes, names(nodes, named), id),
    ensures
        ({
            let front = names(nodes, named.drop_last());
            let last = named.last().id;
            &&& replaced(
                tokens_shown(nodes, names(nodes, named), id),
                names(nodes, named)[last],
                tokens_spelled(nodes, front, last),
            ) == tokens_shown(nodes, front, id)
        }),
    decreases id, children(nodes, id).len() + 2,
{
    let all = names(nodes, named);
    let front = names(nodes, named.drop_last());
    let last = named.last().id;
    let body = tokens_spelled(nodes, front, last);
    lemma_last_is_new(nodes, named);
    assert(reaches(nodes, id, id));
    if all.contains_key(id) {
        lemma_replaced_one(Token::Name { id, text: all[id] }, all[last], body);
    } else {
        let own = Token::Term { id, text: word(nodes[id as int]) };
        lemma_replaced_one(own, all[last], body);
        assert(all[last] != word(nodes[id as int]));
        if let NodeView::App(_, ids) = nodes[id as int] {
            assert forall|k: int| 0 <= k < ids.len() && #[trigger] ids[k] < id implies reaches(
                nodes,
                id,
                ids[k],
            ) by {
                assert(children(nodes, id)[k] < id);
                assert(reaches(nodes, ids[k], ids[k]));
            }
            lemma_replace_last_in_all(nodes, named, ids, id, id);
            let inner = tokens_all(nodes, all, ids, id);
            lemma_replaced_one(Token::Open, all[last], body);
            lemma_replaced_one(Token::Close, all[last], body);
            lemma_replaced_sum(seq![Token::Open], seq![own], all[last], body);
            assert(seq![Token::Open] + seq![own] =~= seq![Token::Open, own]);
            lemma_replaced_sum(seq![Token::Open, own], inner, all[last], body);
            lemma_replaced_sum(seq![Token::Open, own] + inner, seq![Token::Close], all[last], body);
        }
    }
}

proof fn lemma_replace_last_in_all(
    nodes: Seq<NodeView>,
    named: Seq<Named>,
    ids: Seq<usize>,
    bound: usize,
    id: usize,
)
    requires
        named.len() > 0,
        named_once(named),
        names_are_new(nodes, names(nodes, named), id),
        forall|k: int|
            0 <= k < ids.len() && #[trigger] ids[k] < bound ==> reaches(nodes, id, ids[k]),
        bound <= id,
    ensures
        ({
            let front = names(nodes, named.drop_last());
            let last = named.last().id;
            replaced(
                tokens_all(nodes, names(nodes, named), ids, bound),
                names(nodes, named)[last],
                tokens_spelled(nodes, front, last),
            ) == tokens_all(nodes, front, ids, bound)
        }),
    decreases bound, ids.len(),
{
    if ids.len() > 0 {
        let all = names(nodes, named);
        let front = names(nodes, named.drop_last());
        let last = named.last().id;
        let body = tokens_spelled(nodes, front, last);
        let before = ids.drop_last();
        let child = ids.last();
        assert forall|k: int| 0 <= k < before.len() && #[trigger] before[k] < bound implies reaches(
            nodes,
            id,
            before[k],
        ) by {
            assert(before[k] == ids[k]);
        }
        lemma_replace_last_in_all(nodes, named, before, bound, id);
        lemma_last_is_new(nodes, named);
        let more = if child < bound {
            tokens_shown(nodes, all, child)
        } else {
            seq![Token::Term { id: child, text: Seq::empty() }]
        };
        if child < bound {
            assert(reaches(nodes, id, ids[ids.len() - 1]));
            assert forall|one: usize, part: usize|
                #![trigger all[one], reaches(nodes, child, part)]
                all.contains_key(one) && reaches(nodes, child, part) implies all[one] != word(
                nodes[part as int],
            ) by {
                law_parts_of_parts(nodes, id, child, part);
            }
            lemma_replace_last(nodes, named, child);
        } else {
            lemma_replaced_one(more[0], all[last], body);
            assert(more =~= seq![more[0]]);
        }
        lemma_replaced_sum(tokens_all(nodes, all, before, bound), more, all[last], body);
    }
}

/// The names can be put back: replacing them by what they are defined as, the
/// last first, gives a term written out in full, unless a name is given twice
/// or is a word of the term itself.
pub proof fn law_definitions_can_be_put_back(nodes: Seq<NodeView>, named: Seq<Named>, id: usize)
    requires
        named_once(named),
        names_are_new(nodes, names(nodes, named), id),
    ensures
        put_back(nodes, named, tokens_shown(nodes, names(nodes, named), id)) == tokens_shown(
            nodes,
            Map::empty(),
            id,
        ),
    decreases named.len(),
{
    if named.len() > 0 {
        let front = named.drop_last();
        let all = names(nodes, named);
        let some = names(nodes, front);
        lemma_replace_last(nodes, named, id);
        lemma_last_is_new(nodes, named);
        assert forall|one: usize, other: usize|
            #![trigger some[one], some[other]]
            some.contains_key(one) && some.contains_key(other) && one != other implies some[one]
            != some[other] by {
            assert(all[one] != all[other]);
        }
        assert forall|one: usize, part: usize|
            #![trigger some[one], reaches(nodes, id, part)]
            some.contains_key(one) && reaches(nodes, id, part) implies some[one] != word(
            nodes[part as int],
        ) by {
            assert(all[one] != word(nodes[part as int]));
        }
        law_definitions_can_be_put_back(nodes, front, id);
    }
}

/// The term that was named last has no name among those before it, and the
/// others have the same names among them.
proof fn lemma_last_is_new(nodes: Seq<NodeView>, named: Seq<Named>)
    requires
        named.len() > 0,
        named_once(named),
    ensures
        named_once(named.drop_last()),
        !names(nodes, named.drop_last()).contains_key(named.last().id),
        names(nodes, named).contains_key(named.last().id),
        names(nodes, named)[named.last().id].len() > 0,
        forall|id: usize| #[trigger]
            names(nodes, named).contains_key(id) <==> id == named.last().id || names(
                nodes,
                named.drop_last(),
            ).contains_key(id),
        forall|id: usize|
            #![trigger names(nodes, named.drop_last())[id]]
            id != named.last().id ==> names(nodes, named)[id] == names(
                nodes,
                named.drop_last(),
            )[id],
{
    reveal_strlit("__");
    let front = named.drop_last();
    assert forall|i: int, j: int| 0 <= i < j < front.len() implies (#[trigger] front[i]).id != (
    #[trigger] front[j]).id by {
        assert(named[i].id != named[j].id);
    }
    law_names(nodes, front);
    if has_name(front, named.last().id) {
        let i = choose|i: int| 0 <= i < front.len() && (#[trigger] front[i]).id == named.last().id;
        assert(named[i].id != named[named.len() - 1].id);
    }
}

} // verus!
