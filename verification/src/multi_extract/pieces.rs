//! What the pieces of printed terms read as.

use vstd::prelude::*;

use crate::expr::LiteralView;
use crate::multi_extract::binding::{
    binding, indented, law_line_break, line_break, lines, lines_from,
};
use crate::multi_extract::layout::{
    any_multiline, joined, print_app, stacked, symbol, Printed,
};
use crate::multi_extract::text::{decimal, digit, literal, signed_decimal, spaces};
use crate::std_text::{is_white_space, trimmed_end};

verus! {

/// Texts one after the other: the last comes last.
pub proof fn lemma_flatten_last(texts: Seq<Seq<char>>)
    requires
        texts.len() > 0,
    ensures
        texts.flatten() == texts.drop_last().flatten() + texts.last(),
{
    texts.lemma_flatten_and_flatten_alt_are_equivalent();
    texts.drop_last().lemma_flatten_and_flatten_alt_are_equivalent();
}

/// The number that digits stand for.
pub open spec fn number_of(digits: Seq<char>) -> int {
    digits.fold_left(0int, |number: int, c: char| 10 * number + (c as int - '0' as int))
}

/// A number's notation is made of digits, has no zero in front but for zero
/// itself, and reads as the number.
pub proof fn law_decimal(n: nat)
    ensures
        number_of(decimal(n)) == n,
        decimal(n).len() > 0,
        forall|i: int| 0 <= i < decimal(n).len() ==> '0' <= #[trigger] decimal(n)[i] <= '9',
        decimal(n)[0] == '0' <==> n == 0,
        n == 0 ==> decimal(n).len() == 1,
    decreases n,
{
    reveal_with_fuel(Seq::fold_left, 2);
    if n >= 10 {
        law_decimal(n / 10);
        let front = decimal(n / 10);
        let last = digit(n % 10);
        assert(decimal(n) == front.push(last));
        assert(front.push(last).drop_last() =~= front);
        assert(last as int == '0' as int + n % 10);
        assert(number_of(decimal(n)) == 10 * number_of(front) + n % 10);
    } else {
        assert(decimal(n) == seq![digit(n)]);
        assert(decimal(n).drop_last() =~= Seq::empty());
        assert(digit(n) as int == '0' as int + n);
    }
}

/// How literals are written.
pub proof fn law_literals(n: i64, text: Seq<char>)
    ensures
        n >= 0 ==> literal(LiteralView::Int(n)) == decimal(n as nat),
        n < 0 ==> literal(LiteralView::Int(n)) == seq!['-'] + decimal((-n) as nat),
        literal(LiteralView::Float(text)) == text,
        literal(LiteralView::String(text)) == seq!['"'] + text + seq!['"'],
        literal(LiteralView::Bool(true)) == seq!['t', 'r', 'u', 'e'],
        literal(LiteralView::Bool(false)) == seq!['f', 'a', 'l', 's', 'e'],
        literal(LiteralView::Unit) == seq!['(', ')'],
        forall|m: int| m >= 0 ==> #[trigger] signed_decimal(m) == decimal(m as nat),
        forall|m: int| m < 0 ==> #[trigger] signed_decimal(m) == seq!['-'] + decimal((-m) as nat),
{
    reveal_strlit("-");
    reveal_strlit("\"");
    reveal_strlit("true");
    reveal_strlit("false");
    reveal_strlit("()");
    assert("-"@ =~= seq!['-']);
    assert("\""@ =~= seq!['"']);
    assert("true"@ =~= seq!['t', 'r', 'u', 'e']);
    assert("false"@ =~= seq!['f', 'a', 'l', 's', 'e']);
    assert("()"@ =~= seq!['(', ')']);
}

/// What is cut off at the end of a text is white space, and as much of it as
/// stands there.
pub proof fn law_trimmed_end(text: Seq<char>)
    ensures
        trimmed_end(text).is_prefix_of(text),
        trimmed_end(text).len() > 0 ==> !is_white_space(trimmed_end(text).last()),
        forall|i: int| trimmed_end(text).len() <= i < text.len() ==> is_white_space(#[trigger] text[i]),
    decreases text.len(),
{
    if text.len() > 0 && is_white_space(text.last()) {
        let front = text.drop_last();
        law_trimmed_end(front);
        let trimmed = trimmed_end(front);
        assert(trimmed =~= front.take(trimmed.len() as int));
        assert(trimmed =~= text.take(trimmed.len() as int));
        assert forall|i: int| trimmed.len() <= i < text.len() implies is_white_space(
            #[trigger] text[i],
        ) by {
            if i < front.len() {
                assert(front[i] == text[i]);
            }
        }
    } else {
        assert(text =~= text.take(text.len() as int));
    }
}

proof fn lemma_line_break_moves(head: Seq<char>, tail: Seq<char>, from: int)
    requires
        0 <= from <= tail.len(),
    ensures
        line_break(head + tail, head.len() + from) == head.len() + line_break(tail, from),
    decreases tail.len() - from,
{
    if from < tail.len() {
        assert((head + tail)[head.len() + from] == tail[from]);
        lemma_line_break_moves(head, tail, from + 1);
    }
}

proof fn lemma_lines_move(head: Seq<char>, tail: Seq<char>, from: int)
    requires
        0 <= from <= tail.len(),
    ensures
        lines_from(head + tail, head.len() + from) == lines_from(tail, from),
    decreases tail.len() - from,
{
    if from < tail.len() {
        let all = head + tail;
        let start = head.len() + from;
        lemma_line_break_moves(head, tail, from);
        law_line_break(tail, from);
        let end = line_break(tail, from);
        if end < tail.len() {
            lemma_lines_move(head, tail, end + 1);
            assert(all.subrange(start, head.len() + end) =~= tail.subrange(from, end));
        } else {
            assert(all.skip(start) =~= tail.skip(from));
        }
    }
}

/// The lines of a text: none of an empty text; a text without line breaks is
/// one; and what stands before the first line break is the first, less one
/// carriage return at its end, with the lines of what follows behind it.
pub proof fn law_lines(line: Seq<char>, rest: Seq<char>)
    requires
        !line.contains('\n'),
    ensures
        lines(Seq::empty()) == Seq::<Seq<char>>::empty(),
        line.len() > 0 ==> lines(line) == seq![line],
        line.len() == 0 || line.last() != '\r' ==> lines(line + seq!['\n'] + rest) == seq![line]
            + lines(rest),
        lines(line + seq!['\r', '\n'] + rest) == seq![line] + lines(rest),
{
    law_line_break(line, 0);
    if line.len() > 0 {
        if line_break(line, 0) < line.len() {
            assert(line.contains('\n'));
        }
        assert(line.skip(0) =~= line);
    }
    lemma_first_line(line, rest);
    let returned = line.push('\r');
    assert forall|i: int| 0 <= i < returned.len() implies returned[i] != '\n' by {
        if i < line.len() {
            assert(line[i] != '\n') by {
                if line[i] == '\n' {
                    assert(line.contains('\n'));
                }
            }
        }
    }
    lemma_first_line(returned, rest);
    assert(returned.drop_last() =~= line);
    assert(returned + seq!['\n'] + rest =~= line + seq!['\r', '\n'] + rest);
}

proof fn lemma_first_line(line: Seq<char>, rest: Seq<char>)
    requires
        !line.contains('\n'),
    ensures
        lines(line + seq!['\n'] + rest) == seq![
            if line.len() > 0 && line.last() == '\r' {
                line.drop_last()
            } else {
                line
            },
        ] + lines(rest),
{
    let head = line + seq!['\n'];
    let text = head + rest;
    law_line_break(text, 0);
    let end = line_break(text, 0);
    assert(text[line.len() as int] == '\n');
    if end < line.len() {
        assert(text[end] == line[end]);
        assert(line.contains('\n'));
    }
    assert(end == line.len());
    assert(text.subrange(0, end) =~= line);
    lemma_lines_move(head, rest, 0);
    assert(lines_from(text, end + 1) == lines(rest));
}

/// Each line of a named term stands two columns in, and a line break stands
/// between two lines.
pub proof fn law_indented(lines: Seq<Seq<char>>)
    requires
        lines.len() > 0,
    ensures
        seq!['\n'] + indented(lines) == lines.map_values(
            |line: Seq<char>| seq!['\n', ' ', ' '] + line,
        ).flatten(),
    decreases lines.len(),
{
    let f = |line: Seq<char>| seq!['\n', ' ', ' '] + line;
    let texts = lines.map_values(f);
    let front = lines.drop_last();
    reveal_strlit("\n");
    assert("\n"@ =~= seq!['\n']);
    assert(spaces(2) =~= seq![' ', ' ']);
    lemma_flatten_last(texts);
    assert(texts.drop_last() =~= front.map_values(f));
    if lines.len() == 1 {
        assert(front.map_values(f) =~= Seq::empty());
        assert(Seq::<Seq<char>>::empty().flatten() =~= Seq::<char>::empty());
        assert(seq!['\n'] + indented(lines) =~= seq!['\n', ' ', ' '] + lines.last());
    } else {
        law_indented(front);
        assert(seq!['\n'] + indented(lines) =~= (seq!['\n'] + indented(front)) + (seq![
            '\n',
            ' ',
            ' ',
        ] + lines.last()));
    }
}

/// What a command that names a term reads as. The body loses the white space at
/// its end.
pub proof fn law_binding(name: Seq<char>, body: Seq<char>)
    ensures
        ({
            let head = seq!['(', 'l', 'e', 't', ' '] + name;
            let trimmed = trimmed_end(body);
            &&& trimmed.len() == 0 ==> binding(name, body) == head + seq![')', '\n']
            &&& trimmed.len() > 0 && !trimmed.contains('\n') ==> binding(name, body) == head + seq![
                ' ',
            ] + trimmed + seq![')', '\n']
            &&& trimmed.contains('\n') ==> binding(name, body) == head + lines(trimmed).map_values(
                |line: Seq<char>| seq!['\n', ' ', ' '] + line,
            ).flatten() + seq![')', '\n']
        }),
{
    reveal_strlit("(let ");
    reveal_strlit(" ");
    reveal_strlit("\n");
    reveal_strlit(")\n");
    assert("(let "@ =~= seq!['(', 'l', 'e', 't', ' ']);
    assert(" "@ =~= seq![' ']);
    assert("\n"@ =~= seq!['\n']);
    assert(")\n"@ =~= seq![')', '\n']);
    let head = seq!['(', 'l', 'e', 't', ' '] + name;
    let trimmed = trimmed_end(body);
    if trimmed.contains('\n') {
        assert(lines(trimmed).len() > 0) by {
            law_line_break(trimmed, 0);
        }
        law_indented(lines(trimmed));
        assert(binding(name, body) =~= head + (seq!['\n'] + indented(lines(trimmed))) + seq![
            ')',
            '\n',
        ]);
    }
}

/// The parts of a term on one line, each behind a space.
pub proof fn law_joined(parts: Seq<Printed>)
    ensures
        joined(parts) == parts.map_values(|part: Printed| seq![' '] + part.inline).flatten(),
    decreases parts.len(),
{
    let f = |part: Printed| seq![' '] + part.inline;
    let texts = parts.map_values(f);
    reveal_strlit(" ");
    assert(" "@ =~= seq![' ']);
    if parts.len() > 0 {
        law_joined(parts.drop_last());
        assert(texts.drop_last() =~= parts.drop_last().map_values(f));
        lemma_flatten_last(texts);
        assert(joined(parts) =~= joined(parts.drop_last()) + (seq![' '] + parts.last().inline));
    } else {
        assert(texts =~= Seq::empty());
    }
}

/// The parts of a term on lines of their own, each so many columns in.
pub proof fn law_stacked(parts: Seq<Printed>, indent: nat)
    ensures
        stacked(parts, indent) == parts.map_values(
            |part: Printed| seq!['\n'] + Seq::new(indent, |i: int| ' ') + part.pretty,
        ).flatten(),
    decreases parts.len(),
{
    let f = |part: Printed| seq!['\n'] + Seq::new(indent, |i: int| ' ') + part.pretty;
    let texts = parts.map_values(f);
    reveal_strlit("\n");
    assert("\n"@ =~= seq!['\n']);
    if parts.len() > 0 {
        law_stacked(parts.drop_last(), indent);
        assert(texts.drop_last() =~= parts.drop_last().map_values(f));
        lemma_flatten_last(texts);
        assert(spaces(indent) =~= Seq::new(indent, |i: int| ' '));
        assert(stacked(parts, indent) =~= stacked(parts.drop_last(), indent) + (seq!['\n']
            + Seq::new(indent, |i: int| ' ') + parts.last().pretty));
    } else {
        assert(texts =~= Seq::empty());
    }
}

/// How a constructor with its parts is laid out at column `indent`. On one line
/// each part stands behind a space. It is laid out so if the line ends by the
/// eightieth column and no part takes several lines; if not, each part stands on
/// a line of its own, two columns further in.
pub proof fn law_print_app(name: Seq<char>, parts: Seq<Printed>, indent: nat)
    ensures
        ({
            let printed = print_app(name, parts, indent);
            let fits = indent + printed.inline.len() <= 80 && forall|k: int|
                0 <= k < parts.len() ==> !(#[trigger] parts[k]).pretty.contains('\n');
            &&& printed.inline == seq!['('] + name + parts.map_values(
                |part: Printed| seq![' '] + part.inline,
            ).flatten() + seq![')']
            &&& fits ==> printed.pretty == printed.inline
            &&& !fits ==> printed.pretty == seq!['('] + name + parts.map_values(
                |part: Printed|
                    seq!['\n'] + Seq::new(indent + 2nat, |i: int| ' ') + part.pretty,
            ).flatten() + seq![')']
        }),
{
    reveal_strlit("(");
    reveal_strlit(")");
    assert("("@ =~= seq!['(']);
    assert(")"@ =~= seq![')']);
    law_joined(parts);
    law_stacked(parts, indent + 2nat);
    let fits = indent + print_app(name, parts, indent).inline.len() <= 80 && forall|k: int|
        0 <= k < parts.len() ==> !(#[trigger] parts[k]).pretty.contains('\n');
    assert(fits <==> !(indent + print_app(name, parts, indent).inline.len() > 80 || any_multiline(
        parts,
    )));
}

/// A symbol is printed as its text, on one line and laid out.
pub proof fn law_symbol(text: Seq<char>)
    ensures
        symbol(text).inline == text,
        symbol(text).pretty == text,
{
}

} // verus!
