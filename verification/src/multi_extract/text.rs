//! The pieces of text that a printed term is made of.

use vstd::prelude::*;

use crate::expr::{Literal, LiteralView};

verus! {

/// The digit of a number below ten.
pub open spec fn digit(n: nat) -> char {
    ('0' as nat + n) as char
}

/// A number in decimal notation.
pub open spec fn decimal(n: nat) -> Seq<char>
    decreases n,
{
    if n < 10 {
        seq![digit(n)]
    } else {
        decimal(n / 10).push(digit(n % 10))
    }
}

/// A number in decimal notation, with a sign if it is negative.
pub open spec fn signed_decimal(n: int) -> Seq<char> {
    if n < 0 {
        "-"@ + decimal((-n) as nat)
    } else {
        decimal(n as nat)
    }
}

/// The digit of a number below ten.
fn digit_text(n: u64) -> (text: &'static str)
    requires
        n < 10,
    ensures
        text@ == seq![digit(n as nat)],
{
    proof {
        reveal_strlit("0");
        reveal_strlit("1");
        reveal_strlit("2");
        reveal_strlit("3");
        reveal_strlit("4");
        reveal_strlit("5");
        reveal_strlit("6");
        reveal_strlit("7");
        reveal_strlit("8");
        reveal_strlit("9");
    }
    match n {
        0 => "0",
        1 => "1",
        2 => "2",
        3 => "3",
        4 => "4",
        5 => "5",
        6 => "6",
        7 => "7",
        8 => "8",
        _ => "9",
    }
}

/// A number in decimal notation.
pub fn decimal_text(n: u64) -> (text: String)
    ensures
        text@ == decimal(n as nat),
    decreases n,
{
    if n < 10 {
        digit_text(n).to_owned()
    } else {
        let mut text: String = decimal_text(n / 10);
        text.append(digit_text(n % 10));
        assert(text@ =~= decimal(n as nat));
        text
    }
}

/// A number in decimal notation, with a sign if it is negative.
pub fn signed_decimal_text(n: i64) -> (text: String)
    ensures
        text@ == signed_decimal(n as int),
{
    if n < 0 {
        let size: u64 = (-(n + 1)) as u64 + 1;
        let mut text: String = "-".to_owned();
        text.append(decimal_text(size).as_str());
        text
    } else {
        decimal_text(n as u64)
    }
}

/// A literal in the notation of the rule language.
pub open spec fn literal(value: LiteralView) -> Seq<char> {
    match value {
        LiteralView::Int(n) => signed_decimal(n as int),
        LiteralView::Float(text) => text,
        LiteralView::String(text) => "\""@ + text + "\""@,
        LiteralView::Bool(truth) => if truth {
            "true"@
        } else {
            "false"@
        },
        LiteralView::Unit => "()"@,
    }
}

/// A literal in the notation of the rule language.
pub fn literal_text(value: &Literal) -> (text: String)
    ensures
        text@ == literal(value@),
{
    match value {
        Literal::Int(n) => signed_decimal_text(*n),
        Literal::Float(text) => text.clone(),
        Literal::String(content) => {
            let mut text: String = "\"".to_owned();
            text.append(content.as_str());
            text.append("\"");
            text
        },
        Literal::Bool(truth) => if *truth {
            "true".to_owned()
        } else {
            "false".to_owned()
        },
        Literal::Unit => "()".to_owned(),
    }
}

/// So many spaces.
pub open spec fn spaces(count: nat) -> Seq<char> {
    Seq::new(count, |i: int| ' ')
}

/// Appends so many spaces.
pub fn push_spaces(buf: &mut String, count: usize)
    ensures
        final(buf)@ == old(buf)@ + spaces(count as nat),
{
    let ghost before = buf@;
    let mut done: usize = 0;
    assert(before + spaces(0) =~= before);
    while done < count
        invariant
            done <= count,
            buf@ == before + spaces(done as nat),
        decreases count - done,
    {
        proof {
            reveal_strlit(" ");
        }
        buf.append(" ");
        done = done + 1;
        assert(buf@ =~= before + spaces(done as nat));
    }
}

/// Whether a text has more than one line.
pub fn has_line_break(text: &str) -> (found: bool)
    ensures
        found == text@.contains('\n'),
{
    let mut found: bool = false;
    for c in it: text.chars()
        invariant
            it.seq() == text@,
            found == text@.take(it.index()).contains('\n'),
    {
        let ghost i = it.index();
        proof {
            let longer = text@.take(i + 1);
            assert(longer =~= text@.take(i).push(c));
            if text@.take(i).contains('\n') {
                let k = choose|k: int| 0 <= k < i && text@.take(i)[k] == '\n';
                assert(longer[k] == '\n');
            }
            if longer.contains('\n') && c != '\n' {
                let k = choose|k: int| 0 <= k < longer.len() && longer[k] == '\n';
                assert(text@.take(i)[k] == '\n');
            }
            if c == '\n' {
                assert(longer[i] == '\n');
            }
        }
        if c == '\n' {
            found = true;
        }
    }
    assert(text@.take(text@.len() as int) =~= text@);
    found
}

} // verus!
