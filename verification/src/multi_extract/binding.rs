//! The `let` commands that name the shared parts of printed terms.

use vstd::prelude::*;

use crate::multi_extract::text::{has_line_break, push_spaces, spaces};
use crate::std_text::trimmed_end;

verus! {

/// How many columns a part is indented further than what it is a part of.
pub const PRETTY_INDENT_STEP: usize = 2;

/// Where the first line break at or after `from` is; at the end if there is none.
pub open spec fn line_break(text: Seq<char>, from: int) -> int
    decreases text.len() - from,
{
    if from >= text.len() {
        text.len() as int
    } else if text[from] == '\n' {
        from
    } else {
        line_break(text, from + 1)
    }
}

/// A line without the carriage return that may stand before its line break.
pub open spec fn without_return(line: Seq<char>) -> Seq<char> {
    if line.len() > 0 && line.last() == '\r' {
        line.drop_last()
    } else {
        line
    }
}

/// The lines of a text, from `from` on. The last may lack its line break.
pub open spec fn lines_from(text: Seq<char>, from: int) -> Seq<Seq<char>>
    decreases text.len() - from,
{
    if from >= text.len() {
        Seq::empty()
    } else {
        let end = line_break(text, from);
        if end >= text.len() {
            seq![text.skip(from)]
        } else {
            proof {
                law_line_break(text, from);
            }
            seq![without_return(text.subrange(from, end))] + lines_from(text, end + 1)
        }
    }
}

/// The lines of a text, without their line breaks.
pub open spec fn lines(text: Seq<char>) -> Seq<Seq<char>> {
    lines_from(text, 0)
}

/// Lines that are indented by a step, with line breaks between them.
pub open spec fn indented(lines: Seq<Seq<char>>) -> Seq<char>
    decreases lines.len(),
{
    if lines.len() == 0 {
        Seq::empty()
    } else {
        let line = spaces(PRETTY_INDENT_STEP as nat) + lines.last();
        if lines.len() == 1 {
            line
        } else {
            indented(lines.drop_last()) + "\n"@ + line
        }
    }
}

/// The command that gives `name` to what `body` prints. A body of several lines
/// starts on a line of its own.
pub open spec fn binding(name: Seq<char>, body: Seq<char>) -> Seq<char> {
    let trimmed = trimmed_end(body);
    if trimmed.len() == 0 {
        "(let "@ + name + ")\n"@
    } else if trimmed.contains('\n') {
        "(let "@ + name + "\n"@ + indented(lines(trimmed)) + ")\n"@
    } else {
        "(let "@ + name + " "@ + trimmed + ")\n"@
    }
}

/// The first line break is one, unless it is the end of the text, and no other
/// comes before it.
pub proof fn law_line_break(text: Seq<char>, from: int)
    requires
        from <= text.len(),
    ensures
        from <= line_break(text, from) <= text.len(),
        line_break(text, from) < text.len() ==> text[line_break(text, from)] == '\n',
        forall|i: int| from <= i < line_break(text, from) ==> text[i] != '\n',
    decreases text.len() - from,
{
    if from < text.len() && text[from] != '\n' {
        law_line_break(text, from + 1);
    }
}

/// The texts of slices.
pub open spec fn views(slices: Seq<&str>) -> Seq<Seq<char>> {
    slices.map_values(|slice: &str| slice@)
}

/// The lines of a text, without their line breaks.
pub fn split_lines(text: &str) -> (split: Vec<&str>)
    ensures
        views(split@) == lines(text@),
{
    let length: usize = text.unicode_len();
    let mut split: Vec<&str> = Vec::new();
    let mut start: usize = 0;
    let mut i: usize = 0;
    assert(views(split@) + lines_from(text@, 0) =~= lines(text@));
    for c in it: text.chars()
        invariant
            it.seq() == text@,
            it.index() == i,
            length == text@.len(),
            start <= i <= length,
            line_break(text@, start as int) == line_break(text@, i as int),
            views(split@) + lines_from(text@, start as int) == lines(text@),
    {
        if c == '\n' {
            let ghost before = views(split@);
            let end: usize = if i > start && text.get_char(i - 1) == '\r' {
                i - 1
            } else {
                i
            };
            let line: &str = text.substring_char(start, end);
            split.push(line);
            proof {
                let full = text@.subrange(start as int, i as int);
                assert(line@ =~= without_return(full));
                assert(views(split@) =~= before.push(line@));
                assert(lines_from(text@, start as int) == seq![line@] + lines_from(
                    text@,
                    i + 1,
                ));
                assert(views(split@) + lines_from(text@, i + 1) =~= before + lines_from(
                    text@,
                    start as int,
                ));
            }
            start = i + 1;
        }
        i = i + 1;
    }
    if start < length {
        let ghost before = views(split@);
        let line: &str = text.substring_char(start, length);
        split.push(line);
        proof {
            assert(line@ =~= text@.skip(start as int));
            assert(views(split@) =~= before + lines_from(text@, start as int));
        }
    } else {
        assert(views(split@) =~= lines(text@));
    }
    split
}

/// Appends the command that gives `name` to what `body` prints.
pub fn push_binding(buf: &mut String, name: &str, body: &str)
    ensures
        final(buf)@ == old(buf)@ + binding(name@, body@),
{
    let ghost before = buf@;
    let trimmed: &str = body.trim_end();
    buf.append("(let ");
    buf.append(name);
    if trimmed.is_empty() {
        buf.append(")\n");
        assert(buf@ =~= before + binding(name@, body@));
        return;
    }
    if has_line_break(trimmed) {
        buf.append("\n");
        let parts: Vec<&str> = split_lines(trimmed);
        let ghost opened = buf@;
        let ghost all = lines(trimmed@);
        let mut i: usize = 0;
        assert(opened =~= opened + indented(all.take(0)));
        while i < parts.len()
            invariant
                i <= parts@.len(),
                views(parts@) == all,
                buf@ == opened + indented(all.take(i as int)),
            decreases parts@.len() - i,
        {
            let ghost done = buf@;
            if i > 0 {
                buf.append("\n");
            }
            push_spaces(buf, PRETTY_INDENT_STEP);
            buf.append(parts[i]);
            proof {
                let more = all.take(i + 1);
                assert(more.drop_last() =~= all.take(i as int));
                assert(more.last() == parts@[i as int]@);
                if i == 0 {
                    assert(indented(more.drop_last()) =~= Seq::<char>::empty());
                }
                assert(buf@ =~= opened + indented(more));
            }
            i = i + 1;
        }
        assert(all.take(i as int) =~= all);
        buf.append(")\n");
        assert(buf@ =~= before + binding(name@, body@));
    } else {
        buf.append(" ");
        buf.append(trimmed);
        buf.append(")\n");
        assert(buf@ =~= before + binding(name@, body@));
    }
}

} // verus!
