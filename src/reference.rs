use vstd::prelude::*;
use crate::columns::trim;

verus! {

/// The comment type numbers that the format defines.
pub open spec fn remark_type_defined(n: usize) -> bool {
    n <= 5 || n == 100 || n == 200 || n == 205 || n == 210 || n == 215 || n == 217 || n == 230
        || n == 240 || n == 245 || n == 247 || n == 250 || n == 265 || n == 280 || n == 285 || n
        == 290 || n == 300 || n == 350 || n == 375 || n == 400 || n == 450 || n == 465 || n == 470
        || n == 475 || n == 480 || n == 500 || n == 525 || n == 600 || n == 610 || n == 615 || n
        == 620 || n == 630 || n == 650 || n == 700 || n == 800 || n == 900 || n == 999
}

/// Whether `n` is a comment type number that the format defines.
pub fn valid_remark_type_number(n: usize) -> (r: bool)
    ensures
        r == remark_type_defined(n),
{
    n <= 5 || n == 100 || n == 200 || n == 205 || n == 210 || n == 215 || n == 217 || n == 230
        || n == 240 || n == 245 || n == 247 || n == 250 || n == 265 || n == 280 || n == 285 || n
        == 290 || n == 300 || n == 350 || n == 375 || n == 400 || n == 450 || n == 465 || n == 470
        || n == 475 || n == 480 || n == 500 || n == 525 || n == 600 || n == 610 || n == 615 || n
        == 620 || n == 630 || n == 650 || n == 700 || n == 800 || n == 900 || n == 999
}

/// A character that may stand in a Hermann-Mauguin space group symbol.
pub open spec fn symbol_char(c: char) -> bool {
    ('A' <= c <= 'Z') || ('a' <= c <= 'z') || ('0' <= c <= '9') || c == ' ' || c == '-' || c
        == '/' || c == ':'
}

/// A space group symbol is accepted when, trimmed, it is not empty and is
/// made only of the characters Hermann-Mauguin symbols use. This is a check
/// of the characters, not a lookup in a table of space groups.
pub open spec fn space_group_recognised(text: Seq<char>) -> bool {
    trim(text).len() > 0 && forall|i: int| 0 <= i < text.len() ==> symbol_char(#[trigger] text[i])
}

/// Whether the (trimmed) space group text is a recognised symbol.
pub fn recognised_space_group(text: &Vec<char>) -> (r: bool)
    requires
        text@ == trim(text@),
    ensures
        r == space_group_recognised(text@),
{
    if text.len() == 0 {
        return false;
    }
    let mut i: usize = 0;
    while i < text.len()
        invariant
            i <= text@.len(),
            forall|k: int| 0 <= k < i ==> symbol_char(#[trigger] text@[k]),
        decreases text@.len() - i,
    {
        let c = text[i];
        if !(('A' <= c && c <= 'Z') || ('a' <= c && c <= 'z') || ('0' <= c && c <= '9') || c == ' '
            || c == '-' || c == '/' || c == ':') {
            return false;
        }
        i += 1;
    }
    true
}

} // verus!
