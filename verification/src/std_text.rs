//! What the standard library's text functions promise, where the
//! specification library says nothing about them.

use vstd::prelude::*;

verus! {

/// `str`'s equality holds exactly when the two texts have the same characters.
pub assume_specification[ <str as PartialEq<str>>::eq ](x: &str, y: &str) -> (equal: bool)
    ensures
        equal == (x@ == y@),
;

/// Whether a character has Unicode's White_Space property.
pub open spec fn is_white_space(c: char) -> bool {
    ||| '\u{9}' <= c <= '\u{d}'
    ||| c == '\u{20}'
    ||| c == '\u{85}'
    ||| c == '\u{a0}'
    ||| c == '\u{1680}'
    ||| '\u{2000}' <= c <= '\u{200a}'
    ||| c == '\u{2028}'
    ||| c == '\u{2029}'
    ||| c == '\u{202f}'
    ||| c == '\u{205f}'
    ||| c == '\u{3000}'
}

/// A text without the white space at its end.
pub open spec fn trimmed_end(text: Seq<char>) -> Seq<char>
    decreases text.len(),
{
    if text.len() > 0 && is_white_space(text.last()) {
        trimmed_end(text.drop_last())
    } else {
        text
    }
}

/// `str::trim_end` returns the text without the white space at its end, where
/// white space is what has Unicode's White_Space property.
pub assume_specification[ str::trim_end ](text: &str) -> (trimmed: &str)
    ensures
        trimmed@ == trimmed_end(text@),
;

} // verus!
