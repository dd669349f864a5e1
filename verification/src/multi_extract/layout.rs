//! How a printed term is put together from its printed parts.

use vstd::prelude::*;

use crate::multi_extract::binding::PRETTY_INDENT_STEP;
use crate::multi_extract::text::{has_line_break, push_spaces, spaces};

verus! {

/// How wide a line may be.
pub const MAX_PRETTY_LINE_WIDTH: usize = 80;

/// A printed term, as contracts see it: on one line, and laid out.
#[verifier::ext_equal]
pub struct Printed {
    pub inline: Seq<char>,
    pub pretty: Seq<char>,
}

/// What is printed the same way wherever it stands.
pub open spec fn symbol(text: Seq<char>) -> Printed {
    Printed { inline: text, pretty: text }
}

/// The parts on one line, a space before each.
pub open spec fn joined(parts: Seq<Printed>) -> Seq<char>
    decreases parts.len(),
{
    if parts.len() == 0 {
        Seq::empty()
    } else {
        joined(parts.drop_last()) + " "@ + parts.last().inline
    }
}

/// The parts on lines of their own, indented by so many columns.
pub open spec fn stacked(parts: Seq<Printed>, indent: nat) -> Seq<char>
    decreases parts.len(),
{
    if parts.len() == 0 {
        Seq::empty()
    } else {
        stacked(parts.drop_last(), indent) + "\n"@ + spaces(indent) + parts.last().pretty
    }
}

/// A constructor with its parts, on one line.
pub open spec fn inline_app(name: Seq<char>, parts: Seq<Printed>) -> Seq<char> {
    "("@ + name + joined(parts) + ")"@
}

/// A constructor with its parts, each part on a line of its own. The
/// constructor stands at column `indent`.
pub open spec fn stacked_app(name: Seq<char>, parts: Seq<Printed>, indent: nat) -> Seq<char> {
    "("@ + name + stacked(parts, indent + PRETTY_INDENT_STEP as nat) + ")"@
}

/// Whether a part takes several lines.
pub open spec fn any_multiline(parts: Seq<Printed>) -> bool {
    exists|k: int| 0 <= k < parts.len() && (#[trigger] parts[k]).pretty.contains('\n')
}

/// A constructor with its parts, at column `indent`. It is laid out on one line
/// if the line is not too wide and no part takes several lines.
pub open spec fn print_app(name: Seq<char>, parts: Seq<Printed>, indent: nat) -> Printed {
    let inline = inline_app(name, parts);
    Printed {
        inline,
        pretty: if indent + inline.len() > MAX_PRETTY_LINE_WIDTH || any_multiline(parts) {
            stacked_app(name, parts, indent)
        } else {
            inline
        },
    }
}

/// A printed term: on one line, and laid out.
#[derive(Debug)]
pub struct RenderedTerm {
    pub inline: String,
    pub pretty: String,
}

impl View for RenderedTerm {
    type V = Printed;

    open spec fn view(&self) -> Printed {
        Printed { inline: self.inline@, pretty: self.pretty@ }
    }
}

/// Printed terms, as contracts see them.
pub open spec fn views(parts: Seq<RenderedTerm>) -> Seq<Printed> {
    parts.map_values(|part: RenderedTerm| part@)
}

impl RenderedTerm {
    /// What is printed the same way wherever it stands.
    pub fn from_symbol(symbol: String) -> (rendered: RenderedTerm)
        ensures
            rendered@ == self::symbol(symbol@),
    {
        RenderedTerm { inline: symbol.clone(), pretty: symbol }
    }

    /// Whether the term is laid out on several lines.
    pub fn is_multiline(&self) -> (multiline: bool)
        ensures
            multiline == self@.pretty.contains('\n'),
    {
        has_line_break(self.pretty.as_str())
    }

    /// A constructor with its parts, at column `indent`.
    pub fn of_app(name: &str, parts: &Vec<RenderedTerm>, indent: usize) -> (rendered: RenderedTerm)
        requires
            indent + PRETTY_INDENT_STEP <= usize::MAX,
        ensures
            rendered@ == print_app(name@, views(parts@), indent as nat),
    {
        let inline: String = inline_text(name, parts);
        let exceeds_width: bool = indent > MAX_PRETTY_LINE_WIDTH || inline.as_str().unicode_len()
            > MAX_PRETTY_LINE_WIDTH - indent;
        let pretty: String = if exceeds_width || is_any_multiline(parts) {
            stacked_text(name, parts, indent)
        } else {
            inline.clone()
        };
        RenderedTerm { inline, pretty }
    }
}

fn inline_text(name: &str, parts: &Vec<RenderedTerm>) -> (text: String)
    ensures
        text@ == inline_app(name@, views(parts@)),
{
    let ghost all = views(parts@);
    let mut text: String = "(".to_owned();
    text.append(name);
    let ghost head = text@;
    let mut k: usize = 0;
    assert(head =~= head + joined(all.take(0)));
    while k < parts.len()
        invariant
            k <= parts@.len(),
            all == views(parts@),
            text@ == head + joined(all.take(k as int)),
        decreases parts@.len() - k,
    {
        text.append(" ");
        text.append(parts[k].inline.as_str());
        k = k + 1;
        proof {
            assert(all.take(k as int).drop_last() =~= all.take(k - 1));
            assert(text@ =~= head + joined(all.take(k as int)));
        }
    }
    assert(all.take(k as int) =~= all);
    text.append(")");
    text
}

fn stacked_text(name: &str, parts: &Vec<RenderedTerm>, indent: usize) -> (text: String)
    requires
        indent + PRETTY_INDENT_STEP <= usize::MAX,
    ensures
        text@ == stacked_app(name@, views(parts@), indent as nat),
{
    let ghost all = views(parts@);
    let inner: usize = indent + PRETTY_INDENT_STEP;
    let mut text: String = "(".to_owned();
    text.append(name);
    let ghost head = text@;
    let mut k: usize = 0;
    assert(head =~= head + stacked(all.take(0), inner as nat));
    while k < parts.len()
        invariant
            k <= parts@.len(),
            all == views(parts@),
            text@ == head + stacked(all.take(k as int), inner as nat),
        decreases parts@.len() - k,
    {
        text.append("\n");
        push_spaces(&mut text, inner);
        text.append(parts[k].pretty.as_str());
        k = k + 1;
        proof {
            assert(all.take(k as int).drop_last() =~= all.take(k - 1));
            assert(text@ =~= head + stacked(all.take(k as int), inner as nat));
        }
    }
    assert(all.take(k as int) =~= all);
    text.append(")");
    text
}

fn is_any_multiline(parts: &Vec<RenderedTerm>) -> (found: bool)
    ensures
        found == any_multiline(views(parts@)),
{
    let ghost all = views(parts@);
    let mut k: usize = 0;
    while k < parts.len()
        invariant
            k <= parts@.len(),
            all == views(parts@),
            forall|j: int| 0 <= j < k ==> !(#[trigger] all[j]).pretty.contains('\n'),
        decreases parts@.len() - k,
    {
        if parts[k].is_multiline() {
            assert(all[k as int].pretty.contains('\n'));
            return true;
        }
        k = k + 1;
    }
    false
}

} // verus!
