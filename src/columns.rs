use vstd::prelude::*;

verus! {

/// The character at column `i` of a line, where columns past its end read as blanks.
pub open spec fn column(line: Seq<char>, i: int) -> char {
    if 0 <= i < line.len() {
        line[i]
    } else {
        ' '
    }
}

/// The columns `[start, end)` of a line, padded with blanks past its end.
pub open spec fn columns(line: Seq<char>, start: int, end: int) -> Seq<char> {
    Seq::new((end - start) as nat, |k: int| column(line, start + k))
}

/// Unicode white space, as `char::is_whitespace` defines it.
pub open spec fn is_blank(c: char) -> bool {
    c == ' ' || ('\t' <= c <= '\r') || c == '\u{85}' || c == '\u{a0}' || c == '\u{1680}' || (
    '\u{2000}' <= c <= '\u{200a}') || c == '\u{2028}' || c == '\u{2029}' || c == '\u{202f}' || c
        == '\u{205f}' || c == '\u{3000}'
}

/// The text with every white-space character removed.
pub open spec fn strip_blanks(s: Seq<char>) -> Seq<char>
    decreases s.len(),
{
    if s.len() == 0 {
        Seq::empty()
    } else if is_blank(s.last()) {
        strip_blanks(s.drop_last())
    } else {
        strip_blanks(s.drop_last()).push(s.last())
    }
}

/// The text without white space at either end.
pub open spec fn trim(s: Seq<char>) -> Seq<char>
    decreases s.len(),
{
    if s.len() == 0 {
        s
    } else if is_blank(s[0]) {
        trim(s.drop_first())
    } else if is_blank(s.last()) {
        trim(s.drop_last())
    } else {
        s
    }
}

/// Trimmed text starts and ends with a character that is not white space,
/// so trimming it again changes nothing.
pub proof fn lemma_trim_idempotent(s: Seq<char>)
    ensures
        trim(s).len() == 0 || (!is_blank(trim(s)[0]) && !is_blank(trim(s).last())),
        trim(trim(s)) == trim(s),
    decreases s.len(),
{
    if s.len() > 0 {
        if is_blank(s[0]) {
            lemma_trim_idempotent(s.drop_first());
        } else if is_blank(s.last()) {
            lemma_trim_idempotent(s.drop_last());
        }
    }
}

pub fn is_blank_char(c: char) -> (r: bool)
    ensures
        r == is_blank(c),
{
    c == ' ' || ('\t' <= c && c <= '\r') || c == '\u{85}' || c == '\u{a0}' || c == '\u{1680}' || (
    '\u{2000}' <= c && c <= '\u{200a}') || c == '\u{2028}' || c == '\u{2029}' || c == '\u{202f}'
        || c == '\u{205f}' || c == '\u{3000}'
}

/// The character at column `i`, a blank past the end of the line.
pub fn column_at(line: &Vec<char>, i: usize) -> (r: char)
    ensures
        r == column(line@, i as int),
{
    if i < line.len() {
        line[i]
    } else {
        ' '
    }
}

/// The columns `[start, end)` of a line, padded with blanks past its end.
pub fn columns_of(line: &Vec<char>, start: usize, end: usize) -> (r: Vec<char>)
    requires
        start <= end,
    ensures
        r@ == columns(line@, start as int, end as int),
{
    let mut r: Vec<char> = Vec::new();
    let mut i: usize = start;
    while i < end
        invariant
            start <= i <= end,
            r@ =~= columns(line@, start as int, i as int),
        decreases end - i,
    {
        let c = column_at(line, i);
        r.push(c);
        i += 1;
    }
    r
}

/// The text with every white-space character removed.
pub fn strip_blanks_of(s: &Vec<char>) -> (r: Vec<char>)
    ensures
        r@ == strip_blanks(s@),
{
    let mut r: Vec<char> = Vec::new();
    let mut i: usize = 0;
    while i < s.len()
        invariant
            i <= s@.len(),
            r@ == strip_blanks(s@.subrange(0, i as int)),
        decreases s@.len() - i,
    {
        assert(s@.subrange(0, i as int + 1).drop_last() =~= s@.subrange(0, i as int));
        if !is_blank_char(s[i]) {
            r.push(s[i]);
        }
        i += 1;
    }
    assert(s@.subrange(0, s@.len() as int) =~= s@);
    r
}

/// The text without white space at either end.
pub fn trim_of(s: &Vec<char>) -> (r: Vec<char>)
    ensures
        r@ == trim(s@),
{
    let mut lo: usize = 0;
    let mut hi: usize = s.len();
    assert(s@.subrange(0, s@.len() as int) =~= s@);
    while lo < hi && (is_blank_char(s[lo]) || is_blank_char(s[hi - 1]))
        invariant
            lo <= hi <= s@.len(),
            trim(s@) == trim(s@.subrange(lo as int, hi as int)),
        decreases hi - lo,
    {
        let ghost t = s@.subrange(lo as int, hi as int);
        if is_blank_char(s[lo]) {
            assert(t.drop_first() =~= s@.subrange(lo as int + 1, hi as int));
            lo += 1;
        } else {
            assert(t.drop_last() =~= s@.subrange(lo as int, hi as int - 1));
            hi -= 1;
        }
    }
    let mut r: Vec<char> = Vec::new();
    let mut i: usize = lo;
    while i < hi
        invariant
            lo <= i <= hi <= s@.len(),
            r@ =~= s@.subrange(lo as int, i as int),
        decreases hi - i,
    {
        r.push(s[i]);
        i += 1;
    }
    r
}

} // verus!
