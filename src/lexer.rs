use vstd::prelude::*;
use crate::columns::{column, column_at, columns, columns_of, trim, trim_of};
use crate::error::{Diagnostic, Issue, Location, Severity};
use crate::number::{
    decimal_at, decimal_errors, digit_value, is_digit, read_decimal, read_i64, read_usize, usize_at,
    usize_errors, i64_at, i64_errors, Decimal,
};
use crate::record::{
    AnisouRecord, AtomBasics, AtomRecord, CrystalRecord, DbrefRecord, ModresRecord, Record,
    SeqadvRecord, SequencePosition,
};
use crate::reference::{remark_type_defined, valid_remark_type_number};

verus! {

/// Relies on `FromIterator<char>` for `String`: the string holds the characters in order.
#[verifier::external_body]
pub(crate) fn text_of(chars: &Vec<char>) -> (r: String)
    ensures
        r@ == chars@,
{
    chars.iter().collect()
}

/// The characters of a string, in order.
pub fn chars_of(s: &str) -> (r: Vec<char>)
    ensures
        r@ == s@,
{
    let len = s.unicode_len();
    let mut r: Vec<char> = Vec::new();
    let mut i: usize = 0;
    while i < len
        invariant
            len == s@.len(),
            i <= len,
            r@ == s@.subrange(0, i as int),
        decreases len - i,
    {
        r.push(s.get_char(i));
        assert(r@ =~= s@.subrange(0, i as int + 1));
        i += 1;
    }
    assert(s@.subrange(0, len as int) =~= s@);
    r
}

/// The text of columns `[start, end)` without white space at either end.
pub open spec fn trimmed_at(line: Seq<char>, start: int, end: int) -> Seq<char> {
    trim(columns(line, start, end))
}

fn trimmed_text(line: &Vec<char>, start: usize, end: usize) -> (r: String)
    requires
        start <= end,
    ensures
        r@ == trimmed_at(line@, start as int, end as int),
{
    let field = columns_of(line, start, end);
    let t = trim_of(&field);
    text_of(&t)
}

fn chars3(line: &Vec<char>, start: usize) -> (r: [char; 3])
    requires
        start + 3 <= usize::MAX,
    ensures
        r@ == columns(line@, start as int, start + 3),
{
    let r = [column_at(line, start), column_at(line, start + 1), column_at(line, start + 2)];
    assert(r@ =~= columns(line@, start as int, start + 3));
    r
}

fn chars4(line: &Vec<char>, start: usize) -> (r: [char; 4])
    requires
        start + 4 <= usize::MAX,
    ensures
        r@ == columns(line@, start as int, start + 4),
{
    let r = [
        column_at(line, start),
        column_at(line, start + 1),
        column_at(line, start + 2),
        column_at(line, start + 3),
    ];
    assert(r@ =~= columns(line@, start as int, start + 4));
    r
}

/// The charge in columns 78 and 79: a digit then a sign, or two blanks (or a
/// line too short to hold both columns) for none.
pub open spec fn charge_value(line: Seq<char>) -> i64 {
    let d = column(line, 78);
    let s = column(line, 79);
    if line.len() < 80 || (d == ' ' && s == ' ') {
        0
    } else if !is_digit(d) || (s != '-' && s != '+') {
        0
    } else if s == '-' {
        -digit_value(d) as i64
    } else {
        digit_value(d) as i64
    }
}

pub open spec fn charge_errors(line: Seq<char>, n: usize) -> Seq<Diagnostic> {
    let d = column(line, 78);
    let s = column(line, 79);
    if line.len() < 80 || (d == ' ' && s == ' ') {
        Seq::empty()
    } else if !is_digit(d) {
        seq![
            Diagnostic {
                severity: Severity::InvalidatingError,
                issue: Issue::ChargeNotNumeric,
                location: Location::Span { line: n, start: 78, length: 1 },
            },
        ]
    } else if s != '-' && s != '+' {
        seq![
            Diagnostic {
                severity: Severity::InvalidatingError,
                issue: Issue::ChargeNotSigned,
                location: Location::Span { line: n, start: 79, length: 1 },
            },
        ]
    } else {
        Seq::empty()
    }
}

/// The shared atom fields are those of the line's columns.
pub open spec fn basics_match(line: Seq<char>, b: AtomBasics) -> bool {
    &&& b.serial == usize_at(line, 7, 11)
    &&& b.name@ == columns(line, 12, 16)
    &&& b.alternate_location == column(line, 16)
    &&& b.residue_name@ == columns(line, 17, 20)
    &&& b.chain == column(line, 21)
    &&& b.residue_serial == usize_at(line, 22, 26)
    &&& b.insertion == column(line, 26)
    &&& b.segment@ == if line.len() >= 76 {
        columns(line, 72, 76)
    } else {
        seq![' ', ' ', ' ', ' ']
    }
    &&& b.element@ == if line.len() >= 78 {
        columns(line, 76, 78)
    } else {
        seq![' ', ' ']
    }
    &&& b.charge == charge_value(line)
}

pub open spec fn basics_errors(line: Seq<char>, n: usize) -> Seq<Diagnostic> {
    usize_errors(line, n, 7, 11) + usize_errors(line, n, 22, 26) + charge_errors(line, n)
}

/// Reads the fields that atom and anisotropic-factor lines share.
pub fn lex_atom_basics(line: &Vec<char>, n: usize, errors: &mut Vec<Diagnostic>) -> (r:
    AtomBasics)
    ensures
        basics_match(line@, r),
        final(errors)@ == old(errors)@ + basics_errors(line@, n),
{
    let serial = read_usize(line, n, 7, 11, errors);
    let name = chars4(line, 12);
    let alternate_location = column_at(line, 16);
    let residue_name = chars3(line, 17);
    let chain = column_at(line, 21);
    let residue_serial = read_usize(line, n, 22, 26, errors);
    let insertion = column_at(line, 26);
    let mut segment = [' ', ' ', ' ', ' '];
    if line.len() >= 76 {
        segment = chars4(line, 72);
    }
    let mut element = [' ', ' '];
    if line.len() >= 78 {
        element = [column_at(line, 76), column_at(line, 77)];
        assert(element@ =~= columns(line@, 76, 78));
    }
    assert(line@.len() < 76 ==> segment@ =~= seq![' ', ' ', ' ', ' ']);
    assert(line@.len() < 78 ==> element@ =~= seq![' ', ' ']);
    let d = column_at(line, 78);
    let s = column_at(line, 79);
    let mut charge: i64 = 0;
    if line.len() >= 80 && !(d == ' ' && s == ' ') {
        if !('0' <= d && d <= '9') {
            errors.push(
                Diagnostic::new(
                    Severity::InvalidatingError,
                    Issue::ChargeNotNumeric,
                    Location::Span { line: n, start: 78, length: 1 },
                ),
            );
        } else if s != '-' && s != '+' {
            errors.push(
                Diagnostic::new(
                    Severity::InvalidatingError,
                    Issue::ChargeNotSigned,
                    Location::Span { line: n, start: 79, length: 1 },
                ),
            );
        } else {
            charge = (d as u32 - '0' as u32) as i64;
            if s == '-' {
                charge = -charge;
            }
        }
    }
    assert(final(errors)@ =~= old(errors)@ + basics_errors(line@, n));
    AtomBasics {
        serial,
        name,
        alternate_location,
        residue_name,
        chain,
        residue_serial,
        insertion,
        segment,
        element,
        charge,
    }
}

/// The diagnostic for an atom line that ends before the `z` coordinate.
pub open spec fn atom_too_short(n: usize) -> Diagnostic {
    Diagnostic {
        severity: Severity::BreakingError,
        issue: Issue::AtomLineTooShort,
        location: Location::Line { line: n },
    }
}

pub open spec fn occupancy_at(line: Seq<char>) -> Decimal {
    if line.len() >= 60 {
        decimal_at(line, 54, 60)
    } else {
        Decimal { mantissa: 1, scale: 0 }
    }
}

pub open spec fn b_factor_at(line: Seq<char>) -> Decimal {
    if line.len() >= 66 {
        decimal_at(line, 60, 66)
    } else {
        Decimal { mantissa: 0, scale: 0 }
    }
}

pub open spec fn atom_errors(line: Seq<char>, n: usize) -> Seq<Diagnostic> {
    decimal_errors(line, n, 30, 38) + decimal_errors(line, n, 38, 46) + decimal_errors(
        line,
        n,
        46,
        54,
    ) + (if line.len() >= 60 {
        decimal_errors(line, n, 54, 60)
    } else {
        Seq::empty()
    }) + (if line.len() >= 66 {
        decimal_errors(line, n, 60, 66)
    } else {
        Seq::empty()
    }) + basics_errors(line, n)
}

/// What lexing an atom line gives.
pub open spec fn atom_lexed(
    line: Seq<char>,
    n: usize,
    hetero: bool,
    r: Result<(Record, Vec<Diagnostic>), Diagnostic>,
) -> bool {
    if line.len() < 54 {
        r == Err::<(Record, Vec<Diagnostic>), Diagnostic>(atom_too_short(n))
    } else {
        match r {
            Ok((Record::Atom(a), errs)) => {
                &&& a.hetero == hetero
                &&& basics_match(line, a.basics)
                &&& a.x == decimal_at(line, 30, 38)
                &&& a.y == decimal_at(line, 38, 46)
                &&& a.z == decimal_at(line, 46, 54)
                &&& a.occupancy == occupancy_at(line)
                &&& a.b_factor == b_factor_at(line)
                &&& errs@ == atom_errors(line, n)
            },
            _ => false,
        }
    }
}

/// Lexes an atom or hetero-atom line. A line that ends before the `z`
/// coordinate gives a breaking error and no record.
pub fn lex_atom(line: &Vec<char>, n: usize, hetero: bool) -> (r: Result<
    (Record, Vec<Diagnostic>),
    Diagnostic,
>)
    ensures
        atom_lexed(line@, n, hetero, r),
{
    if line.len() < 54 {
        return Err(
            Diagnostic::new(Severity::BreakingError, Issue::AtomLineTooShort, Location::Line { line: n }),
        );
    }
    let mut errors: Vec<Diagnostic> = Vec::new();
    let x = read_decimal(line, n, 30, 38, &mut errors);
    let y = read_decimal(line, n, 38, 46, &mut errors);
    let z = read_decimal(line, n, 46, 54, &mut errors);
    let ghost e1 = errors@;
    let mut occupancy = Decimal::new(1, 0);
    if line.len() >= 60 {
        occupancy = read_decimal(line, n, 54, 60, &mut errors);
    }
    let ghost e2 = errors@;
    let mut b_factor = Decimal::new(0, 0);
    if line.len() >= 66 {
        b_factor = read_decimal(line, n, 60, 66, &mut errors);
    }
    let ghost e3 = errors@;
    let basics = lex_atom_basics(line, n, &mut errors);
    proof {
        if line@.len() < 60 {
            assert(e2 =~= e1 + Seq::<Diagnostic>::empty());
        }
        if line@.len() < 66 {
            assert(e3 =~= e2 + Seq::<Diagnostic>::empty());
        }
        assert(errors@ =~= atom_errors(line@, n));
    }
    Ok(
        (
            Record::Atom(AtomRecord { hetero, basics, x, y, z, occupancy, b_factor }),
            errors,
        ),
    )
}


/// The anisotropic factor `k` (0 to 5), in ten-thousandths, from columns `28 + 7k` on.
pub open spec fn factor_at(line: Seq<char>, k: int) -> Decimal {
    Decimal { mantissa: i64_at(line, 28 + 7 * k, 35 + 7 * k), scale: 4 }
}

pub open spec fn anisou_errors(line: Seq<char>, n: usize) -> Seq<Diagnostic> {
    i64_errors(line, n, 28, 35) + i64_errors(line, n, 35, 42) + i64_errors(line, n, 42, 49)
        + i64_errors(line, n, 49, 56) + i64_errors(line, n, 56, 63) + i64_errors(line, n, 63, 70)
        + basics_errors(line, n)
}

/// What lexing an anisotropic-factor line gives.
pub open spec fn anisou_lexed(line: Seq<char>, n: usize, rec: Record, errs: Seq<Diagnostic>) -> bool {
    match rec {
        Record::Anisou(a) => {
            &&& basics_match(line, a.basics)
            &&& forall|k: int| 0 <= k < 6 ==> #[trigger] a.factors@[k] == factor_at(line, k)
            &&& errs == anisou_errors(line, n)
        },
        _ => false,
    }
}

/// Lexes an anisotropic-factor line: six integers in ten-thousandths.
pub fn lex_anisou(line: &Vec<char>, n: usize) -> (r: (Record, Vec<Diagnostic>))
    ensures
        anisou_lexed(line@, n, r.0, r.1@),
{
    let mut errors: Vec<Diagnostic> = Vec::new();
    let a = read_i64(line, n, 28, 35, &mut errors);
    let b = read_i64(line, n, 35, 42, &mut errors);
    let c = read_i64(line, n, 42, 49, &mut errors);
    let d = read_i64(line, n, 49, 56, &mut errors);
    let e = read_i64(line, n, 56, 63, &mut errors);
    let f = read_i64(line, n, 63, 70, &mut errors);
    let factors = [
        Decimal::new(a, 4),
        Decimal::new(b, 4),
        Decimal::new(c, 4),
        Decimal::new(d, 4),
        Decimal::new(e, 4),
        Decimal::new(f, 4),
    ];
    let basics = lex_atom_basics(line, n, &mut errors);
    assert(errors@ =~= anisou_errors(line@, n));
    assert(forall|k: int| 0 <= k < 6 ==> #[trigger] factors@[k] == factor_at(line@, k)) by {
        assert(factors@[0] == factor_at(line@, 0));
        assert(factors@[1] == factor_at(line@, 1));
        assert(factors@[2] == factor_at(line@, 2));
        assert(factors@[3] == factor_at(line@, 3));
        assert(factors@[4] == factor_at(line@, 4));
        assert(factors@[5] == factor_at(line@, 5));
    }
    (Record::Anisou(AnisouRecord { basics, factors }), errors)
}

/// The values of a transform row: three factors and a translation.
pub open spec fn row_match(line: Seq<char>, v: [Decimal; 4]) -> bool {
    &&& v@[0] == decimal_at(line, 10, 20)
    &&& v@[1] == decimal_at(line, 20, 30)
    &&& v@[2] == decimal_at(line, 30, 40)
    &&& v@[3] == decimal_at(line, 45, 55)
}

pub open spec fn row_errors(line: Seq<char>, n: usize) -> Seq<Diagnostic> {
    decimal_errors(line, n, 10, 20) + decimal_errors(line, n, 20, 30) + decimal_errors(line, n, 30, 40)
        + decimal_errors(line, n, 45, 55)
}

/// Reads the values of a transform row.
pub fn lex_transformation(line: &Vec<char>, n: usize, errors: &mut Vec<Diagnostic>) -> (r: [Decimal; 4])
    ensures
        row_match(line@, r),
        final(errors)@ == old(errors)@ + row_errors(line@, n),
{
    let a = read_decimal(line, n, 10, 20, errors);
    let b = read_decimal(line, n, 20, 30, errors);
    let c = read_decimal(line, n, 30, 40, errors);
    let d = read_decimal(line, n, 45, 55, errors);
    assert(final(errors)@ =~= old(errors)@ + row_errors(line@, n));
    [a, b, c, d]
}

/// What lexing a symmetry-operator row gives.
pub open spec fn mtrix_lexed(line: Seq<char>, n: usize, row: usize, rec: Record, errs: Seq<Diagnostic>) -> bool {
    match rec {
        Record::MtriX { row: r, serial, values, given } => {
            &&& r == row
            &&& serial == usize_at(line, 7, 10)
            &&& row_match(line, values)
            &&& given == (column(line, 59) == '1')
            &&& errs == usize_errors(line, n, 7, 10) + row_errors(line, n)
        },
        _ => false,
    }
}

/// Lexes a symmetry-operator row: its serial, its values, and whether it is given.
pub fn lex_mtrix(line: &Vec<char>, n: usize, row: usize) -> (r: (Record, Vec<Diagnostic>))
    ensures
        mtrix_lexed(line@, n, row, r.0, r.1@),
{
    let mut errors: Vec<Diagnostic> = Vec::new();
    let serial = read_usize(line, n, 7, 10, &mut errors);
    let values = lex_transformation(line, n, &mut errors);
    let given = column_at(line, 59) == '1';
    assert(errors@ =~= usize_errors(line@, n, 7, 10) + row_errors(line@, n));
    (Record::MtriX { row, serial, values, given }, errors)
}

/// The count `k` (0 to 11) of the aggregate trailer, five columns wide from column 10.
pub open spec fn master_count_at(line: Seq<char>, k: int) -> usize {
    usize_at(line, 10 + 5 * k, 15 + 5 * k)
}

/// The diagnostics of the trailer's counts `0..k`.
pub open spec fn master_errors(line: Seq<char>, n: usize, k: nat) -> Seq<Diagnostic>
    decreases k,
{
    if k == 0 {
        Seq::empty()
    } else {
        master_errors(line, n, (k - 1) as nat) + usize_errors(
            line,
            n,
            (10 + 5 * (k - 1)) as usize,
            (15 + 5 * (k - 1)) as usize,
        )
    }
}

/// Lexes the aggregate trailer: twelve counts, five columns each.
pub fn lex_master(line: &Vec<char>, n: usize) -> (r: (Record, Vec<Diagnostic>))
    ensures
        r.0 matches Record::Master { counts } && forall|k: int|
            0 <= k < 12 ==> #[trigger] counts@[k] == master_count_at(line@, k),
        r.1@ == master_errors(line@, n, 12),
{
    let mut errors: Vec<Diagnostic> = Vec::new();
    let mut counts: [usize; 12] = [0; 12];
    let mut k: usize = 0;
    while k < 12
        invariant
            k <= 12,
            forall|j: int| 0 <= j < k ==> #[trigger] counts@[j] == master_count_at(line@, j),
            errors@ == master_errors(line@, n, k as nat),
        decreases 12 - k,
    {
        let v = read_usize(line, n, 10 + 5 * k, 15 + 5 * k, &mut errors);
        counts[k] = v;
        k += 1;
    }
    (Record::Master { counts }, errors)
}


pub open spec fn max(a: int, b: int) -> int {
    if a >= b {
        a
    } else {
        b
    }
}

pub open spec fn min(a: int, b: int) -> int {
    if a <= b {
        a
    } else {
        b
    }
}

/// What lexing a unit-cell and symmetry line gives.
pub open spec fn cryst_lexed(line: Seq<char>, n: usize, rec: Record, errs: Seq<Diagnostic>) -> bool {
    match rec {
        Record::Crystal(c) => {
            &&& c.a == decimal_at(line, 6, 15)
            &&& c.b == decimal_at(line, 15, 24)
            &&& c.c == decimal_at(line, 24, 33)
            &&& c.alpha == decimal_at(line, 33, 40)
            &&& c.beta == decimal_at(line, 40, 47)
            &&& c.gamma == decimal_at(line, 47, 54)
            &&& c.space_group@ == if line.len() > 55 {
                line.subrange(55, min(line.len() as int, 66))
            } else {
                Seq::empty()
            }
            &&& c.z == if line.len() > 66 {
                usize_at(line, 66, line.len() as int)
            } else {
                1
            }
            &&& errs == decimal_errors(line, n, 6, 15) + decimal_errors(line, n, 15, 24)
                + decimal_errors(line, n, 24, 33) + decimal_errors(line, n, 33, 40)
                + decimal_errors(line, n, 40, 47) + decimal_errors(line, n, 47, 54) + if line.len()
                > 66 {
                usize_errors(line, n, 66, line.len() as usize)
            } else {
                Seq::empty()
            }
        },
        _ => false,
    }
}

/// Lexes a unit-cell and symmetry line.
pub fn lex_cryst(line: &Vec<char>, n: usize) -> (r: (Record, Vec<Diagnostic>))
    ensures
        cryst_lexed(line@, n, r.0, r.1@),
{
    let mut errors: Vec<Diagnostic> = Vec::new();
    let a = read_decimal(line, n, 6, 15, &mut errors);
    let b = read_decimal(line, n, 15, 24, &mut errors);
    let c = read_decimal(line, n, 24, 33, &mut errors);
    let alpha = read_decimal(line, n, 33, 40, &mut errors);
    let beta = read_decimal(line, n, 40, 47, &mut errors);
    let gamma = read_decimal(line, n, 47, 54, &mut errors);
    let sg_end: usize = if line.len() < 66 {
        line.len()
    } else {
        66
    };
    let sg_start: usize = if sg_end < 55 {
        sg_end
    } else {
        55
    };
    let sg = columns_of(line, sg_start, sg_end);
    assert(line@.len() > 55 ==> sg@ =~= line@.subrange(55, min(line@.len() as int, 66)));
    assert(line@.len() <= 55 ==> sg@ =~= Seq::<char>::empty());
    let space_group = text_of(&sg);
    let ghost before = errors@;
    let mut z: usize = 1;
    if line.len() > 66 {
        z = read_usize(line, n, 66, line.len(), &mut errors);
    } else {
        assert(errors@ =~= before + Seq::<Diagnostic>::empty());
    }
    assert(errors@ =~= decimal_errors(line@, n, 6, 15) + decimal_errors(line@, n, 15, 24)
        + decimal_errors(line@, n, 24, 33) + decimal_errors(line@, n, 33, 40)
        + decimal_errors(line@, n, 40, 47) + decimal_errors(line@, n, 47, 54) + if line@.len()
        > 66 {
        usize_errors(line@, n, 66, line@.len() as usize)
    } else {
        Seq::empty()
    });
    (Record::Crystal(CrystalRecord { a, b, c, alpha, beta, gamma, space_group, z }), errors)
}

/// The monomer codes of a reference-sequence line from column `index`: four
/// columns apart, up to column 71, until a blank code.
pub open spec fn seqres_codes(line: Seq<char>, index: int) -> Seq<Seq<char>>
    decreases 71 - index,
{
    if index + 3 < min(line.len() as int, 71) && columns(line, index, index + 3) != seq![
        ' ',
        ' ',
        ' ',
    ] {
        seq![columns(line, index, index + 3)] + seqres_codes(line, index + 4)
    } else {
        Seq::empty()
    }
}

/// What lexing a reference-sequence line gives.
pub open spec fn seqres_lexed(line: Seq<char>, n: usize, rec: Record, errs: Seq<Diagnostic>) -> bool {
    match rec {
        Record::Seqres { serial, chain, total, codes } => {
            &&& serial == usize_at(line, 7, 10)
            &&& chain == column(line, 11)
            &&& total == usize_at(line, 13, 17)
            &&& codes@.len() == seqres_codes(line, 19).len()
            &&& forall|i: int| 0 <= i < codes@.len() ==> (#[trigger] codes@[i])@ == seqres_codes(line, 19)[i]
            &&& errs == usize_errors(line, n, 7, 10) + usize_errors(line, n, 13, 17)
        },
        _ => false,
    }
}

/// Lexes a reference-sequence line.
pub fn lex_seqres(line: &Vec<char>, n: usize) -> (r: (Record, Vec<Diagnostic>))
    ensures
        seqres_lexed(line@, n, r.0, r.1@),
{
    let mut errors: Vec<Diagnostic> = Vec::new();
    let serial = read_usize(line, n, 7, 10, &mut errors);
    let chain = column_at(line, 11);
    let total = read_usize(line, n, 13, 17, &mut errors);
    let mut codes: Vec<[char; 3]> = Vec::new();
    let mut index: usize = 19;
    let limit: usize = if line.len() < 71 {
        line.len()
    } else {
        71
    };
    let ghost all = seqres_codes(line@, 19);
    let ghost mut done: Seq<Seq<char>> = Seq::empty();
    assert(all =~= done + seqres_codes(line@, 19));
    while index + 3 < limit
        invariant
            19 <= index <= 71,
            limit == min(line@.len() as int, 71),
            all == seqres_codes(line@, 19),
            all == done + seqres_codes(line@, index as int),
            codes@.len() == done.len(),
            forall|i: int| 0 <= i < codes@.len() ==> (#[trigger] codes@[i])@ == done[i],
        ensures
            all == done,
            codes@.len() == done.len(),
            forall|i: int| 0 <= i < codes@.len() ==> (#[trigger] codes@[i])@ == done[i],
        decreases 71 - index,
    {
        let code = chars3(line, index);
        if code[0] == ' ' && code[1] == ' ' && code[2] == ' ' {
            assert(code@ =~= seq![' ', ' ', ' ']);
            assert(seqres_codes(line@, index as int) =~= Seq::<Seq<char>>::empty());
            assert(all =~= done);
            break;
        }
        assert(code@ != seq![' ', ' ', ' '] ) by {
            if code@ == seq![' ', ' ', ' '] {
                assert(code@[0] == ' ' && code@[1] == ' ' && code@[2] == ' ');
            }
        }
        proof {
            done = done.push(code@);
        }
        codes.push(code);
        assert(all =~= done + seqres_codes(line@, index + 4));
        index += 4;
    }
    assert(errors@ =~= usize_errors(line@, n, 7, 10) + usize_errors(line@, n, 13, 17));
    (Record::Seqres { serial, chain, total, codes }, errors)
}


/// What lexing a database-reference line gives.
pub open spec fn dbref_lexed(line: Seq<char>, n: usize, rec: Record, errs: Seq<Diagnostic>) -> bool {
    match rec {
        Record::Dbref(d) => {
            &&& d.id_code@ == columns(line, 7, 11)
            &&& d.chain == column(line, 12)
            &&& d.local == (SequencePosition {
                start: usize_at(line, 14, 18),
                start_insert: column(line, 18),
                end: usize_at(line, 21, 24),
                end_insert: column(line, 24),
            })
            &&& d.database@ == trimmed_at(line, 26, 32)
            &&& d.accession@ == trimmed_at(line, 33, 41)
            &&& d.database_id@ == trimmed_at(line, 42, 54)
            &&& d.database_position == (SequencePosition {
                start: usize_at(line, 55, 60),
                start_insert: column(line, 60),
                end: usize_at(line, 62, 67),
                end_insert: column(line, 67),
            })
            &&& errs == usize_errors(line, n, 14, 18) + usize_errors(line, n, 21, 24)
                + usize_errors(line, n, 55, 60) + usize_errors(line, n, 62, 67)
        },
        _ => false,
    }
}

/// Lexes a database-reference line.
pub fn lex_dbref(line: &Vec<char>, n: usize) -> (r: (Record, Vec<Diagnostic>))
    ensures
        dbref_lexed(line@, n, r.0, r.1@),
{
    let mut errors: Vec<Diagnostic> = Vec::new();
    let id_code = chars4(line, 7);
    let chain = column_at(line, 12);
    let start = read_usize(line, n, 14, 18, &mut errors);
    let start_insert = column_at(line, 18);
    let end = read_usize(line, n, 21, 24, &mut errors);
    let end_insert = column_at(line, 24);
    let database = trimmed_text(line, 26, 32);
    let accession = trimmed_text(line, 33, 41);
    let database_id = trimmed_text(line, 42, 54);
    let db_start = read_usize(line, n, 55, 60, &mut errors);
    let db_start_insert = column_at(line, 60);
    let db_end = read_usize(line, n, 62, 67, &mut errors);
    let db_end_insert = column_at(line, 67);
    assert(errors@ =~= usize_errors(line@, n, 14, 18) + usize_errors(line@, n, 21, 24)
        + usize_errors(line@, n, 55, 60) + usize_errors(line@, n, 62, 67));
    (
        Record::Dbref(
            DbrefRecord {
                id_code,
                chain,
                local: SequencePosition { start, start_insert, end, end_insert },
                database,
                accession,
                database_id,
                database_position: SequencePosition {
                    start: db_start,
                    start_insert: db_start_insert,
                    end: db_end,
                    end_insert: db_end_insert,
                },
            },
        ),
        errors,
    )
}

/// Whether columns `[39, 48)`, the database residue of a sequence difference, are all spaces.
pub open spec fn no_database_residue(line: Seq<char>) -> bool {
    forall|k: int| 39 <= k < 48 ==> #[trigger] column(line, k) == ' '
}

/// What lexing a sequence-difference line gives.
pub open spec fn seqadv_lexed(line: Seq<char>, n: usize, rec: Record, errs: Seq<Diagnostic>) -> bool {
    match rec {
        Record::Seqadv(d) => {
            &&& d.id_code@ == columns(line, 7, 11)
            &&& d.residue_name@ == columns(line, 12, 15)
            &&& d.chain == column(line, 16)
            &&& d.serial == usize_at(line, 18, 22)
            &&& d.insertion == column(line, 22)
            &&& d.database@ == trimmed_at(line, 24, 28)
            &&& d.accession@ == trimmed_at(line, 29, 38)
            &&& (if no_database_residue(line) {
                d.database_residue is None
            } else {
                d.database_residue matches Some((name, serial)) && name@ == columns(line, 39, 42)
                    && serial == usize_at(line, 43, 48)
            })
            &&& d.comment@ == trimmed_at(line, 49, max(line.len() as int, 49))
            &&& errs == usize_errors(line, n, 18, 22) + if no_database_residue(line) {
                Seq::empty()
            } else {
                usize_errors(line, n, 43, 48)
            }
        },
        _ => false,
    }
}

/// Lexes a sequence-difference line.
pub fn lex_seqadv(line: &Vec<char>, n: usize) -> (r: (Record, Vec<Diagnostic>))
    ensures
        seqadv_lexed(line@, n, r.0, r.1@),
{
    let mut errors: Vec<Diagnostic> = Vec::new();
    let id_code = chars4(line, 7);
    let residue_name = chars3(line, 12);
    let chain = column_at(line, 16);
    let serial = read_usize(line, n, 18, 22, &mut errors);
    let insertion = column_at(line, 22);
    let database = trimmed_text(line, 24, 28);
    let accession = trimmed_text(line, 29, 38);
    let ghost before = errors@;
    let mut blank = true;
    let mut k: usize = 39;
    while k < 48
        invariant
            39 <= k <= 48,
            blank == forall|j: int| 39 <= j < k ==> #[trigger] column(line@, j) == ' ',
        decreases 48 - k,
    {
        if column_at(line, k) != ' ' {
            blank = false;
        }
        k += 1;
    }
    let mut database_residue: Option<([char; 3], usize)> = None;
    if !blank {
        let name = chars3(line, 39);
        let db_serial = read_usize(line, n, 43, 48, &mut errors);
        database_residue = Some((name, db_serial));
    } else {
        assert(errors@ =~= before + Seq::<Diagnostic>::empty());
    }
    let end = if line.len() > 49 {
        line.len()
    } else {
        49
    };
    let comment = trimmed_text(line, 49, end);
    (
        Record::Seqadv(
            SeqadvRecord {
                id_code,
                residue_name,
                chain,
                serial,
                insertion,
                database,
                accession,
                database_residue,
                comment,
            },
        ),
        errors,
    )
}

/// What lexing a residue-modification line gives.
pub open spec fn modres_lexed(line: Seq<char>, n: usize, rec: Record, errs: Seq<Diagnostic>) -> bool {
    match rec {
        Record::Modres(m) => {
            &&& m.id_code@ == columns(line, 7, 11)
            &&& m.residue_name@ == columns(line, 12, 15)
            &&& m.chain == column(line, 16)
            &&& m.serial == usize_at(line, 18, 22)
            &&& m.insertion == column(line, 22)
            &&& m.standard_name@ == columns(line, 24, 27)
            &&& m.comment@ == trimmed_at(line, 29, max(line.len() as int, 29))
            &&& errs == usize_errors(line, n, 18, 22)
        },
        _ => false,
    }
}

/// Lexes a residue-modification line.
pub fn lex_modres(line: &Vec<char>, n: usize) -> (r: (Record, Vec<Diagnostic>))
    ensures
        modres_lexed(line@, n, r.0, r.1@),
{
    let mut errors: Vec<Diagnostic> = Vec::new();
    let id_code = chars4(line, 7);
    let residue_name = chars3(line, 12);
    let chain = column_at(line, 16);
    let serial = read_usize(line, n, 18, 22, &mut errors);
    let insertion = column_at(line, 22);
    let standard_name = chars3(line, 24);
    let end = if line.len() > 29 {
        line.len()
    } else {
        29
    };
    let comment = trimmed_text(line, 29, end);
    assert(errors@ =~= Seq::<Diagnostic>::empty() + usize_errors(line@, n, 18, 22));
    (
        Record::Modres(
            ModresRecord { id_code, residue_name, chain, serial, insertion, standard_name, comment },
        ),
        errors,
    )
}

/// What lexing a comment line gives: its type number and text, or a single
/// loose warning when the text runs past 70 characters.
pub open spec fn remark_lexed(
    line: Seq<char>,
    n: usize,
    r: Result<(Record, Vec<Diagnostic>), Diagnostic>,
) -> bool {
    if line.len() > 81 {
        r == Err::<(Record, Vec<Diagnostic>), Diagnostic>(
            Diagnostic {
                severity: Severity::LooseWarning,
                issue: Issue::RemarkTooLong,
                location: Location::Span { line: n, start: 11, length: (line.len() - 11) as usize },
            },
        )
    } else {
        match r {
            Ok((Record::Remark { number, text }, errs)) => {
                &&& number == usize_at(line, 7, 10)
                &&& text@ == if line.len() > 11 {
                    line.subrange(11, line.len() as int)
                } else {
                    Seq::empty()
                }
                &&& errs@ == usize_errors(line, n, 7, 10) + if remark_type_defined(number) {
                    Seq::empty()
                } else {
                    seq![
                        Diagnostic {
                            severity: Severity::StrictWarning,
                            issue: Issue::RemarkTypeInvalid,
                            location: Location::Span { line: n, start: 7, length: 3 },
                        },
                    ]
                }
            },
            _ => false,
        }
    }
}

/// Lexes a comment line.
pub fn lex_remark(line: &Vec<char>, n: usize) -> (r: Result<(Record, Vec<Diagnostic>), Diagnostic>)
    ensures
        remark_lexed(line@, n, r),
{
    if line.len() > 81 {
        return Err(
            Diagnostic::new(
                Severity::LooseWarning,
                Issue::RemarkTooLong,
                Location::Span { line: n, start: 11, length: line.len() - 11 },
            ),
        );
    }
    let mut errors: Vec<Diagnostic> = Vec::new();
    let number = read_usize(line, n, 7, 10, &mut errors);
    let ghost before = errors@;
    if !valid_remark_type_number(number) {
        errors.push(
            Diagnostic::new(
                Severity::StrictWarning,
                Issue::RemarkTypeInvalid,
                Location::Span { line: n, start: 7, length: 3 },
            ),
        );
    } else {
        assert(errors@ =~= before + Seq::<Diagnostic>::empty());
    }
    let end = if line.len() > 11 {
        line.len()
    } else {
        11
    };
    let tail = columns_of(line, 11, end);
    assert(line@.len() > 11 ==> tail@ =~= line@.subrange(11, line@.len() as int));
    assert(line@.len() <= 11 ==> tail@ =~= Seq::<char>::empty());
    let text = text_of(&tail);
    Ok((Record::Remark { number, text }, errors))
}

/// What lexing a model-boundary line gives: the serial in the columns from 6 on.
pub open spec fn model_lexed(line: Seq<char>, n: usize, rec: Record, errs: Seq<Diagnostic>) -> bool {
    let end = max(line.len() as int, 6);
    &&& rec == Record::Model { serial: usize_at(line, 6, end) }
    &&& errs == usize_errors(line, n, 6, end as usize)
}

/// Lexes a model-boundary line.
pub fn lex_model(line: &Vec<char>, n: usize) -> (r: (Record, Vec<Diagnostic>))
    ensures
        model_lexed(line@, n, r.0, r.1@),
{
    let mut errors: Vec<Diagnostic> = Vec::new();
    let end = if line.len() > 6 {
        line.len()
    } else {
        6
    };
    let serial = read_usize(line, n, 6, end, &mut errors);
    assert(errors@ =~= Seq::<Diagnostic>::empty() + usize_errors(line@, n, 6, end));
    (Record::Model { serial }, errors)
}


/// Whether the line starts with the six characters of a tag.
fn has_tag(line: &Vec<char>, a: char, b: char, c: char, d: char, e: char, f: char) -> (r: bool)
    ensures
        r == (line@.len() >= 6 && line@.subrange(0, 6) == seq![a, b, c, d, e, f]),
{
    if line.len() < 6 {
        return false;
    }
    let r = line[0] == a && line[1] == b && line[2] == c && line[3] == d && line[4] == e && line[5]
        == f;
    assert(r ==> line@.subrange(0, 6) =~= seq![a, b, c, d, e, f]);
    assert(line@.subrange(0, 6) == seq![a, b, c, d, e, f] ==> line@.subrange(0, 6)[5] == f
        && line@.subrange(0, 6)[4] == e && line@.subrange(0, 6)[3] == d && line@.subrange(0, 6)[2]
        == c && line@.subrange(0, 6)[1] == b && line@.subrange(0, 6)[0] == a);
    r
}

/// The diagnostic for a line whose tag is not known.
pub open spec fn unrecognised(n: usize) -> Diagnostic {
    Diagnostic {
        severity: Severity::GeneralWarning,
        issue: Issue::UnrecognisedTag,
        location: Location::Line { line: n },
    }
}

/// A record that carries no fields, lexed without diagnostics.
pub open spec fn bare(r: Result<(Record, Vec<Diagnostic>), Diagnostic>, rec: Record) -> bool {
    r matches Ok((x, errs)) && x == rec && errs@.len() == 0
}

/// What lexing a transform row of the identity or scale transform gives.
pub open spec fn row_lexed(
    line: Seq<char>,
    n: usize,
    r: Result<(Record, Vec<Diagnostic>), Diagnostic>,
    scale: bool,
    row: usize,
) -> bool {
    match r {
        Ok((Record::Scale { row: k, values }, errs)) => scale && k == row && row_match(line, values)
            && errs@ == row_errors(line, n),
        Ok((Record::OrigX { row: k, values }, errs)) => !scale && k == row && row_match(line, values)
            && errs@ == row_errors(line, n),
        _ => false,
    }
}

/// What lexing line `n` gives, by the tag in its first six columns (or three
/// for the short terminators).
pub open spec fn line_lexed(
    line: Seq<char>,
    n: usize,
    r: Result<(Record, Vec<Diagnostic>), Diagnostic>,
) -> bool {
    let ok = |p: spec_fn(Record, Seq<Diagnostic>) -> bool| r matches Ok((rec, errs)) && p(rec, errs@);
    if line.len() > 6 {
        let t = line.subrange(0, 6);
        if t == seq!['R', 'E', 'M', 'A', 'R', 'K'] {
            remark_lexed(line, n, r)
        } else if t == seq!['A', 'T', 'O', 'M', ' ', ' '] {
            atom_lexed(line, n, false, r)
        } else if t == seq!['A', 'N', 'I', 'S', 'O', 'U'] {
            ok(|rec, errs| anisou_lexed(line, n, rec, errs))
        } else if t == seq!['H', 'E', 'T', 'A', 'T', 'M'] {
            atom_lexed(line, n, true, r)
        } else if t == seq!['C', 'R', 'Y', 'S', 'T', '1'] {
            ok(|rec, errs| cryst_lexed(line, n, rec, errs))
        } else if t == seq!['S', 'C', 'A', 'L', 'E', '1'] {
            row_lexed(line, n, r, true, 0)
        } else if t == seq!['S', 'C', 'A', 'L', 'E', '2'] {
            row_lexed(line, n, r, true, 1)
        } else if t == seq!['S', 'C', 'A', 'L', 'E', '3'] {
            row_lexed(line, n, r, true, 2)
        } else if t == seq!['O', 'R', 'I', 'G', 'X', '1'] {
            row_lexed(line, n, r, false, 0)
        } else if t == seq!['O', 'R', 'I', 'G', 'X', '2'] {
            row_lexed(line, n, r, false, 1)
        } else if t == seq!['O', 'R', 'I', 'G', 'X', '3'] {
            row_lexed(line, n, r, false, 2)
        } else if t == seq!['M', 'T', 'R', 'I', 'X', '1'] {
            ok(|rec, errs| mtrix_lexed(line, n, 0, rec, errs))
        } else if t == seq!['M', 'T', 'R', 'I', 'X', '2'] {
            ok(|rec, errs| mtrix_lexed(line, n, 1, rec, errs))
        } else if t == seq!['M', 'T', 'R', 'I', 'X', '3'] {
            ok(|rec, errs| mtrix_lexed(line, n, 2, rec, errs))
        } else if t == seq!['M', 'O', 'D', 'E', 'L', ' '] {
            ok(|rec, errs| model_lexed(line, n, rec, errs))
        } else if t == seq!['M', 'A', 'S', 'T', 'E', 'R'] {
            ok(
                |rec: Record, errs: Seq<Diagnostic>|
                    rec matches Record::Master { counts } && (forall|k: int|
                        0 <= k < 12 ==> #[trigger] counts@[k] == master_count_at(line, k)) && errs
                        == master_errors(line, n, 12),
            )
        } else if t == seq!['D', 'B', 'R', 'E', 'F', ' '] {
            ok(|rec, errs| dbref_lexed(line, n, rec, errs))
        } else if t == seq!['S', 'E', 'Q', 'R', 'E', 'S'] {
            ok(|rec, errs| seqres_lexed(line, n, rec, errs))
        } else if t == seq!['S', 'E', 'Q', 'A', 'D', 'V'] {
            ok(|rec, errs| seqadv_lexed(line, n, rec, errs))
        } else if t == seq!['M', 'O', 'D', 'R', 'E', 'S'] {
            ok(|rec, errs| modres_lexed(line, n, rec, errs))
        } else if t == seq!['E', 'N', 'D', 'M', 'D', 'L'] {
            bare(r, Record::EndModel)
        } else if t == seq!['T', 'E', 'R', ' ', ' ', ' '] {
            bare(r, Record::Ter)
        } else if t == seq!['E', 'N', 'D', ' ', ' ', ' '] {
            bare(r, Record::End)
        } else {
            r == Err::<(Record, Vec<Diagnostic>), Diagnostic>(unrecognised(n))
        }
    } else if line.len() > 2 {
        let t = line.subrange(0, 3);
        if t == seq!['T', 'E', 'R'] {
            bare(r, Record::Ter)
        } else if t == seq!['E', 'N', 'D'] {
            bare(r, Record::End)
        } else {
            r == Err::<(Record, Vec<Diagnostic>), Diagnostic>(unrecognised(n))
        }
    } else if line.len() > 0 {
        r == Err::<(Record, Vec<Diagnostic>), Diagnostic>(unrecognised(n))
    } else {
        bare(r, Record::Empty)
    }
}

/// Lexes row `row` (0 to 2) of the scale transform.
pub fn lex_scale(line: &Vec<char>, n: usize, row: usize) -> (r: (Record, Vec<Diagnostic>))
    ensures
        row_lexed(line@, n, Ok(r), true, row),
{
    let mut errors: Vec<Diagnostic> = Vec::new();
    let values = lex_transformation(line, n, &mut errors);
    assert(errors@ =~= row_errors(line@, n));
    (Record::Scale { row, values }, errors)
}

/// Lexes row `row` (0 to 2) of the identity transform.
pub fn lex_origx(line: &Vec<char>, n: usize, row: usize) -> (r: (Record, Vec<Diagnostic>))
    ensures
        row_lexed(line@, n, Ok(r), false, row),
{
    let mut errors: Vec<Diagnostic> = Vec::new();
    let values = lex_transformation(line, n, &mut errors);
    assert(errors@ =~= row_errors(line@, n));
    (Record::OrigX { row, values }, errors)
}

fn ok_pair(p: (Record, Vec<Diagnostic>)) -> (r: Result<(Record, Vec<Diagnostic>), Diagnostic>)
    ensures
        r == Ok::<(Record, Vec<Diagnostic>), Diagnostic>(p),
{
    Ok(p)
}

/// Lexes line `n` (counted from 1) into a record and the diagnostics of its
/// fields, or a single diagnostic when no record can be made of it.
pub fn lex_line(line: &Vec<char>, n: usize) -> (r: Result<(Record, Vec<Diagnostic>), Diagnostic>)
    ensures
        line_lexed(line@, n, r),
{
    if line.len() > 6 {
        if has_tag(line, 'R', 'E', 'M', 'A', 'R', 'K') {
            lex_remark(line, n)
        } else if has_tag(line, 'A', 'T', 'O', 'M', ' ', ' ') {
            lex_atom(line, n, false)
        } else if has_tag(line, 'A', 'N', 'I', 'S', 'O', 'U') {
            ok_pair(lex_anisou(line, n))
        } else if has_tag(line, 'H', 'E', 'T', 'A', 'T', 'M') {
            lex_atom(line, n, true)
        } else if has_tag(line, 'C', 'R', 'Y', 'S', 'T', '1') {
            ok_pair(lex_cryst(line, n))
        } else if has_tag(line, 'S', 'C', 'A', 'L', 'E', '1') {
            ok_pair(lex_scale(line, n, 0))
        } else if has_tag(line, 'S', 'C', 'A', 'L', 'E', '2') {
            ok_pair(lex_scale(line, n, 1))
        } else if has_tag(line, 'S', 'C', 'A', 'L', 'E', '3') {
            ok_pair(lex_scale(line, n, 2))
        } else if has_tag(line, 'O', 'R', 'I', 'G', 'X', '1') {
            ok_pair(lex_origx(line, n, 0))
        } else if has_tag(line, 'O', 'R', 'I', 'G', 'X', '2') {
            ok_pair(lex_origx(line, n, 1))
        } else if has_tag(line, 'O', 'R', 'I', 'G', 'X', '3') {
            ok_pair(lex_origx(line, n, 2))
        } else if has_tag(line, 'M', 'T', 'R', 'I', 'X', '1') {
            ok_pair(lex_mtrix(line, n, 0))
        } else if has_tag(line, 'M', 'T', 'R', 'I', 'X', '2') {
            ok_pair(lex_mtrix(line, n, 1))
        } else if has_tag(line, 'M', 'T', 'R', 'I', 'X', '3') {
            ok_pair(lex_mtrix(line, n, 2))
        } else if has_tag(line, 'M', 'O', 'D', 'E', 'L', ' ') {
            ok_pair(lex_model(line, n))
        } else if has_tag(line, 'M', 'A', 'S', 'T', 'E', 'R') {
            ok_pair(lex_master(line, n))
        } else if has_tag(line, 'D', 'B', 'R', 'E', 'F', ' ') {
            ok_pair(lex_dbref(line, n))
        } else if has_tag(line, 'S', 'E', 'Q', 'R', 'E', 'S') {
            ok_pair(lex_seqres(line, n))
        } else if has_tag(line, 'S', 'E', 'Q', 'A', 'D', 'V') {
            ok_pair(lex_seqadv(line, n))
        } else if has_tag(line, 'M', 'O', 'D', 'R', 'E', 'S') {
            ok_pair(lex_modres(line, n))
        } else if has_tag(line, 'E', 'N', 'D', 'M', 'D', 'L') {
            Ok((Record::EndModel, Vec::new()))
        } else if has_tag(line, 'T', 'E', 'R', ' ', ' ', ' ') {
            Ok((Record::Ter, Vec::new()))
        } else if has_tag(line, 'E', 'N', 'D', ' ', ' ', ' ') {
            Ok((Record::End, Vec::new()))
        } else {
            Err(Diagnostic::new(Severity::GeneralWarning, Issue::UnrecognisedTag, Location::Line { line: n }))
        }
    } else if line.len() > 2 {
        if line[0] == 'T' && line[1] == 'E' && line[2] == 'R' {
            assert(line@.subrange(0, 3) =~= seq!['T', 'E', 'R']);
            Ok((Record::Ter, Vec::new()))
        } else if line[0] == 'E' && line[1] == 'N' && line[2] == 'D' {
            assert(line@.subrange(0, 3) =~= seq!['E', 'N', 'D']);
            assert(line@.subrange(0, 3) != seq!['T', 'E', 'R']) by {
                assert(line@.subrange(0, 3)[0] == 'E');
            }
            Ok((Record::End, Vec::new()))
        } else {
            assert(line@.subrange(0, 3) != seq!['T', 'E', 'R'] && line@.subrange(0, 3) != seq![
                'E',
                'N',
                'D',
            ]) by {
                if line@.subrange(0, 3) == seq!['T', 'E', 'R'] {
                    assert(line@.subrange(0, 3)[0] == 'T' && line@.subrange(0, 3)[1] == 'E'
                        && line@.subrange(0, 3)[2] == 'R');
                }
                if line@.subrange(0, 3) == seq!['E', 'N', 'D'] {
                    assert(line@.subrange(0, 3)[0] == 'E' && line@.subrange(0, 3)[1] == 'N'
                        && line@.subrange(0, 3)[2] == 'D');
                }
            }
            Err(Diagnostic::new(Severity::GeneralWarning, Issue::UnrecognisedTag, Location::Line { line: n }))
        }
    } else if line.len() > 0 {
        Err(Diagnostic::new(Severity::GeneralWarning, Issue::UnrecognisedTag, Location::Line { line: n }))
    } else {
        Ok((Record::Empty, Vec::new()))
    }
}

} // verus!
