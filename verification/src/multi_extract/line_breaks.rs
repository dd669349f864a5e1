//! Where printed terms are broken over lines.

use vstd::prelude::*;

use crate::multi_extract::binding::PRETTY_INDENT_STEP;
use crate::multi_extract::dag::{children, reaches, NodeView};
use crate::multi_extract::layout::{
    any_multiline, inline_app, joined, print_app, stacked, stacked_app, symbol, Printed,
    MAX_PRETTY_LINE_WIDTH,
};
use crate::multi_extract::naming::{shown, shown_all, spelled};
use crate::multi_extract::text::{literal, spaces};

verus! {

/// A text in which each line break, with the spaces behind it, is one space.
/// `broken` says whether the text stands behind a line break and spaces.
pub open spec fn unbroken_from(text: Seq<char>, broken: bool) -> Seq<char>
    decreases text.len(),
{
    if text.len() == 0 {
        Seq::empty()
    } else if text[0] == '\n' {
        seq![' '] + unbroken_from(text.skip(1), true)
    } else if text[0] == ' ' && broken {
        unbroken_from(text.skip(1), true)
    } else {
        seq![text[0]] + unbroken_from(text.skip(1), false)
    }
}

/// A text in which each line break, with the spaces behind it, is one space.
pub open spec fn unbroken(text: Seq<char>) -> Seq<char> {
    unbroken_from(text, false)
}

/// Whether there is neither a space nor a line break in a text.
pub open spec fn blank_free(text: Seq<char>) -> bool {
    !text.contains(' ') && !text.contains('\n')
}

/// What a term says of itself: its constructor, its value or its name.
pub open spec fn word(node: NodeView) -> Seq<char> {
    match node {
        NodeView::App(name, _) => name,
        NodeView::Lit(value) => literal(value),
        NodeView::Var(name) => name,
    }
}

/// Whether there are no blanks in what a term and its parts say of themselves,
/// nor in their names.
pub open spec fn blank_free_words(
    nodes: Seq<NodeView>,
    names: Map<usize, Seq<char>>,
    id: usize,
) -> bool {
    forall|part: usize| #[trigger]
        reaches(nodes, id, part) ==> blank_free(word(nodes[part as int])) && (names.contains_key(
            part,
        ) ==> blank_free(names[part]))
}

/// Whether a term's layout is its single line, broken at spaces.
pub open spec fn breaks_at_spaces(printed: Printed) -> bool {
    !printed.inline.contains('\n') && unbroken(printed.pretty) == printed.inline
}

/// Where no word has blanks in it, a term's layout is its single line, with line
/// breaks and spaces in the place of some spaces. It has line breaks just if the
/// term is a constructor with parts, is not given by a name, and exceeds the
/// width of a line.
pub proof fn law_line_breaks(
    nodes: Seq<NodeView>,
    names: Map<usize, Seq<char>>,
    id: usize,
    indent: nat,
)
    requires
        blank_free_words(nodes, names, id),
    ensures
        breaks_at_spaces(shown(nodes, names, id, indent)),
        breaks_at_spaces(spelled(nodes, names, id, indent)),
        shown(nodes, names, id, indent).pretty.contains('\n') <==> !names.contains_key(id)
            && children(nodes, id).len() > 0 && indent + shown(nodes, names, id, indent).inline.len()
            > MAX_PRETTY_LINE_WIDTH,
        spelled(nodes, names, id, indent).pretty.contains('\n') <==> children(nodes, id).len() > 0
            && indent + spelled(nodes, names, id, indent).inline.len() > MAX_PRETTY_LINE_WIDTH,
{
    lemma_shown_is_neat(nodes, names, id, indent);
}

/// Whether a text does not start with a space.
spec fn starts_solid(text: Seq<char>) -> bool {
    text.len() == 0 || text[0] != ' '
}

/// What is shown of every printed term.
spec fn neat(printed: Printed, indent: nat) -> bool {
    &&& breaks_at_spaces(printed)
    &&& starts_solid(printed.pretty)
    &&& printed.pretty.contains('\n') ==> indent + printed.inline.len() > MAX_PRETTY_LINE_WIDTH
}

proof fn lemma_shown_is_neat(
    nodes: Seq<NodeView>,
    names: Map<usize, Seq<char>>,
    id: usize,
    indent: nat,
)
    requires
        blank_free_words(nodes, names, id),
    ensures
        neat(shown(nodes, names, id, indent), indent),
        neat(spelled(nodes, names, id, indent), indent),
        names.contains_key(id) ==> !shown(nodes, names, id, indent).pretty.contains('\n'),
        spelled(nodes, names, id, indent).pretty.contains('\n') <==> children(nodes, id).len() > 0
            && indent + spelled(nodes, names, id, indent).inline.len() > MAX_PRETTY_LINE_WIDTH,
    decreases id,
{
    assert(reaches(nodes, id, id));
    if names.contains_key(id) {
        lemma_symbol_is_neat(names[id], indent);
    }
    match nodes[id as int] {
        NodeView::App(name, ids) => {
            let deeper = indent + PRETTY_INDENT_STEP as nat;
            let parts = shown_all(nodes, names, ids, id, deeper);
            assert forall|k: int| 0 <= k < parts.len() implies neat(#[trigger] parts[k], deeper) by {
                if ids[k] < id {
                    assert(children(nodes, id)[k] < id);
                    assert forall|part: usize| #[trigger] reaches(
                        nodes,
                        ids[k],
                        part,
                    ) implies blank_free(word(nodes[part as int])) && (names.contains_key(part)
                        ==> blank_free(names[part])) by {
                        assert(reaches(nodes, id, part));
                    }
                    lemma_shown_is_neat(nodes, names, ids[k], deeper);
                } else {
                    lemma_symbol_is_neat(Seq::empty(), deeper);
                }
            }
            lemma_app_is_neat(name, parts, indent);
        },
        NodeView::Lit(value) => {
            lemma_symbol_is_neat(literal(value), indent);
        },
        NodeView::Var(name) => {
            lemma_symbol_is_neat(name, indent);
        },
    }
}

proof fn lemma_symbol_is_neat(text: Seq<char>, indent: nat)
    requires
        blank_free(text),
    ensures
        neat(symbol(text), indent),
        !text.contains('\n'),
{
    lemma_nothing_to_mend(text);
    if text.len() > 0 && text[0] == ' ' {
        assert(text.contains(' '));
    }
}

proof fn lemma_nothing_to_mend(text: Seq<char>)
    requires
        !text.contains('\n'),
    ensures
        unbroken(text) == text,
    decreases text.len(),
{
    if text.len() > 0 {
        let rest = text.skip(1);
        assert(text.contains(text[0]));
        if rest.contains('\n') {
            let i = choose|i: int| 0 <= i < rest.len() && rest[i] == '\n';
            assert(text[i + 1] == '\n');
        }
        lemma_nothing_to_mend(rest);
        assert(text =~= seq![text[0]] + rest);
    } else {
        assert(text =~= Seq::empty());
    }
}

proof fn lemma_unbroken_sum(one: Seq<char>, other: Seq<char>, broken: bool)
    requires
        starts_solid(other),
    ensures
        unbroken_from(one + other, broken) == unbroken_from(one, broken) + unbroken(other),
    decreases one.len(),
{
    let all = one + other;
    if one.len() == 0 {
        assert(all =~= other);
        assert(unbroken_from(other, true) == unbroken_from(other, false));
        assert(unbroken_from(one, broken) + unbroken(other) =~= unbroken(other));
    } else {
        let rest = one.skip(1);
        assert(all[0] == one[0]);
        assert(all.skip(1) =~= rest + other);
        lemma_unbroken_sum(rest, other, true);
        lemma_unbroken_sum(rest, other, false);
        assert(unbroken_from(all, broken) =~= unbroken_from(one, broken) + unbroken(other));
    }
}

proof fn lemma_mend(count: nat)
    ensures
        unbroken("\n"@ + spaces(count)) == " "@,
{
    reveal_strlit("\n");
    reveal_strlit(" ");
    let text = "\n"@ + spaces(count);
    assert(text[0] == '\n');
    assert(text.skip(1) =~= spaces(count));
    lemma_skip_spaces(count);
    assert(seq![' '] + Seq::<char>::empty() =~= " "@);
}

proof fn lemma_skip_spaces(count: nat)
    ensures
        unbroken_from(spaces(count), true) == Seq::<char>::empty(),
    decreases count,
{
    if count > 0 {
        assert(spaces(count).skip(1) =~= spaces((count - 1) as nat));
        lemma_skip_spaces((count - 1) as nat);
    }
}

proof fn lemma_app_is_neat(name: Seq<char>, parts: Seq<Printed>, indent: nat)
    requires
        blank_free(name),
        forall|k: int|
            0 <= k < parts.len() ==> neat(
                #[trigger] parts[k],
                indent + PRETTY_INDENT_STEP as nat,
            ),
    ensures
        neat(print_app(name, parts, indent), indent),
        print_app(name, parts, indent).pretty.contains('\n') <==> parts.len() > 0 && indent
            + print_app(name, parts, indent).inline.len() > MAX_PRETTY_LINE_WIDTH,
{
    reveal_strlit("(");
    reveal_strlit(")");
    let deeper = indent + PRETTY_INDENT_STEP as nat;
    let head = "("@ + name;
    let inline = inline_app(name, parts);
    let broken = stacked_app(name, parts, indent);
    lemma_parts_are_neat(parts, deeper);
    assert(!head.contains('\n')) by {
        if head.contains('\n') {
            let i = choose|i: int| 0 <= i < head.len() && head[i] == '\n';
            assert(name[i - 1] == '\n');
        }
    }
    assert(!inline.contains('\n')) by {
        if inline.contains('\n') {
            let i = choose|i: int| 0 <= i < inline.len() && inline[i] == '\n';
            if i < head.len() {
                assert(head[i] == '\n');
            } else if i < head.len() + joined(parts).len() {
                assert(joined(parts)[i - head.len()] == '\n');
            }
        }
    }
    lemma_nothing_to_mend(inline);
    lemma_nothing_to_mend(head);
    assert(!")"@.contains('\n'));
    lemma_nothing_to_mend(")"@);
    lemma_unbroken_sum(head, stacked(parts, deeper), false);
    lemma_unbroken_sum(head + stacked(parts, deeper), ")"@, false);
    assert(unbroken(broken) == inline);
    assert(inline[0] == '(' && broken[0] == '(');
    if any_multiline(parts) {
        let k = choose|k: int| 0 <= k < parts.len() && (#[trigger] parts[k]).pretty.contains('\n');
        lemma_joined_is_long(parts, k);
        assert(neat(parts[k], deeper));
    }
    if parts.len() > 0 {
        let lower = stacked(parts, deeper);
        let i = choose|i: int| 0 <= i < lower.len() && lower[i] == '\n';
        assert(broken[head.len() + i] == '\n');
    } else {
        assert(broken =~= inline);
    }
}

proof fn lemma_joined_is_long(parts: Seq<Printed>, k: int)
    requires
        0 <= k < parts.len(),
    ensures
        joined(parts).len() >= parts[k].inline.len() + 1,
    decreases parts.len(),
{
    reveal_strlit(" ");
    if k < parts.len() - 1 {
        lemma_joined_is_long(parts.drop_last(), k);
    }
}

proof fn lemma_parts_are_neat(parts: Seq<Printed>, indent: nat)
    requires
        forall|k: int| 0 <= k < parts.len() ==> neat(#[trigger] parts[k], indent),
    ensures
        unbroken(stacked(parts, indent)) == joined(parts),
        starts_solid(stacked(parts, indent)),
        parts.len() > 0 ==> stacked(parts, indent).contains('\n'),
        !joined(parts).contains('\n'),
    decreases parts.len(),
{
    if parts.len() > 0 {
        reveal_strlit(" ");
        reveal_strlit("\n");
        let front = parts.drop_last();
        let last = parts.last();
        assert forall|k: int| 0 <= k < front.len() implies neat(#[trigger] front[k], indent) by {
            assert(front[k] == parts[k]);
        }
        assert(neat(parts[parts.len() - 1], indent));
        lemma_parts_are_neat(front, indent);
        let upper = stacked(front, indent);
        let gap = "\n"@ + spaces(indent);
        lemma_mend(indent);
        assert(stacked(parts, indent) =~= upper + gap + last.pretty);
        lemma_unbroken_sum(upper, gap, false);
        lemma_unbroken_sum(upper + gap, last.pretty, false);
        assert(unbroken(stacked(parts, indent)) =~= joined(parts));
        assert(stacked(parts, indent)[upper.len() as int] == '\n');
        if upper.len() > 0 {
            assert(stacked(parts, indent)[0] == upper[0]);
        }
        if joined(parts).contains('\n') {
            let before = joined(front);
            let i = choose|i: int| 0 <= i < joined(parts).len() && joined(parts)[i] == '\n';
            if i < before.len() {
                assert(before[i] == '\n');
            } else if i > before.len() {
                assert(last.inline[i - before.len() - 1] == '\n');
            }
        }
    }
}

} // verus!
